//! Which handlers an action goes to, and which views a keystroke goes to.
use vstd::prelude::*;
use std::collections::HashMap;
use crate::text::{decimal, decimal_text};

verus! {

broadcast use vstd::std_specs::hash::group_hash_axioms;

/// A handler for one type of action in one type of view.
#[derive(Clone, Copy, Debug, PartialEq, Eq, Structural)]
pub struct ViewHandler {
    pub view_type: u64,
    pub action_type: u64,
    pub handler: usize,
}

/// The handlers of views, in the order in which they were added, and the global handlers.
pub struct ActionTable {
    handlers: Vec<ViewHandler>,
    global_actions: HashMap<u64, usize>,
}

/// The meaning of the table.
#[verifier::ext_equal]
pub struct ActionsView {
    pub handlers: Seq<ViewHandler>,
    pub global_actions: Map<u64, usize>,
}

impl View for ActionTable {
    type V = ActionsView;

    closed spec fn view(&self) -> ActionsView {
        ActionsView { handlers: self.handlers@, global_actions: self.global_actions@ }
    }
}

/// The handlers of a view for an action, the one that was added last at the front.
pub open spec fn handlers_of(
    handlers: Seq<ViewHandler>,
    view_type: u64,
    action_type: u64,
) -> Seq<usize>
    decreases handlers.len(),
{
    if handlers.len() == 0 {
        Seq::empty()
    } else {
        let earlier = handlers_of(handlers.drop_last(), view_type, action_type);
        let last = handlers.last();
        if last.view_type == view_type && last.action_type == action_type {
            seq![last.handler] + earlier
        } else {
            earlier
        }
    }
}

/// The handlers but those of a view for an action.
pub open spec fn others_of(
    handlers: Seq<ViewHandler>,
    view_type: u64,
    action_type: u64,
) -> Seq<ViewHandler>
    decreases handlers.len(),
{
    if handlers.len() == 0 {
        Seq::empty()
    } else {
        let earlier = others_of(handlers.drop_last(), view_type, action_type);
        let last = handlers.last();
        if last.view_type == view_type && last.action_type == action_type {
            earlier
        } else {
            earlier.push(last)
        }
    }
}

/// Handlers of a view for an action as they were added, if the one that was added last is at the
/// front.
pub open spec fn added(view_type: u64, action_type: u64, handlers: Seq<usize>) -> Seq<ViewHandler> {
    Seq::new(
        handlers.len(),
        |i: int|
            ViewHandler { view_type, action_type, handler: handlers[handlers.len() - 1 - i] },
    )
}

proof fn lemma_handlers_of_both(
    a: Seq<ViewHandler>,
    b: Seq<ViewHandler>,
    view_type: u64,
    action_type: u64,
)
    ensures
        handlers_of(a + b, view_type, action_type) == handlers_of(b, view_type, action_type)
            + handlers_of(a, view_type, action_type),
    decreases b.len(),
{
    let later = handlers_of(b, view_type, action_type);
    let earlier = handlers_of(a, view_type, action_type);
    if b.len() == 0 {
        assert(a + b =~= a);
        assert(later + earlier =~= earlier);
    } else {
        lemma_handlers_of_both(a, b.drop_last(), view_type, action_type);
        assert((a + b).drop_last() =~= a + b.drop_last());
        assert(handlers_of(a + b, view_type, action_type) =~= later + earlier);
    }
}

proof fn lemma_handlers_of_added(
    view_type: u64,
    action_type: u64,
    handlers: Seq<usize>,
    view: u64,
    action: u64,
)
    ensures
        handlers_of(added(view_type, action_type, handlers), view, action) == (if view == view_type
            && action == action_type {
            handlers
        } else {
            Seq::empty()
        }),
    decreases handlers.len(),
{
    let all = added(view_type, action_type, handlers);
    if handlers.len() > 0 {
        lemma_handlers_of_added(view_type, action_type, handlers.skip(1), view, action);
        assert(all.drop_last() =~= added(view_type, action_type, handlers.skip(1)));
        assert(all.last().handler == handlers[0]);
        assert(seq![handlers[0]] + handlers.skip(1) =~= handlers);
    } else {
        assert(all =~= Seq::empty());
        assert(handlers =~= Seq::empty());
    }
}

/// While the handlers of a view for an action are out, the action does not reach them; all others are
/// where they were.
pub proof fn taken_handlers_are_not_reached(
    handlers: Seq<ViewHandler>,
    view_type: u64,
    action_type: u64,
    view: u64,
    action: u64,
)
    ensures
        handlers_of(others_of(handlers, view_type, action_type), view, action) == (if view
            == view_type && action == action_type {
            Seq::empty()
        } else {
            handlers_of(handlers, view, action)
        }),
    decreases handlers.len(),
{
    if handlers.len() > 0 {
        taken_handlers_are_not_reached(
            handlers.drop_last(),
            view_type,
            action_type,
            view,
            action,
        );
        let earlier = others_of(handlers.drop_last(), view_type, action_type);
        assert(earlier.push(handlers.last()).drop_last() =~= earlier);
    }
}

/// Putting handlers back that were taken out leaves every action with the handlers that it had. What
/// was added meanwhile for the same action and view is lost.
pub proof fn putting_handlers_back_undoes_taking(
    before: Seq<ViewHandler>,
    meanwhile: Seq<ViewHandler>,
    view_type: u64,
    action_type: u64,
    view: u64,
    action: u64,
)
    requires
        forall|h: ViewHandler| #[trigger]
            meanwhile.contains(h) ==> h.view_type == view_type && h.action_type == action_type,
    ensures
        ({
            let out = others_of(before, view_type, action_type) + meanwhile;
            let back = others_of(out, view_type, action_type) + added(
                view_type,
                action_type,
                handlers_of(before, view_type, action_type),
            );
            handlers_of(back, view, action) == handlers_of(before, view, action)
        }),
{
    let rest = others_of(before, view_type, action_type);
    let out = rest + meanwhile;
    let kept = others_of(out, view_type, action_type);
    let again = added(view_type, action_type, handlers_of(before, view_type, action_type));
    lemma_handlers_of_both(kept, again, view, action);
    lemma_handlers_of_added(
        view_type,
        action_type,
        handlers_of(before, view_type, action_type),
        view,
        action,
    );
    taken_handlers_are_not_reached(out, view_type, action_type, view, action);
    taken_handlers_are_not_reached(before, view_type, action_type, view, action);
    lemma_handlers_of_both(rest, meanwhile, view, action);
    let wanted = handlers_of(before, view, action);
    if view == view_type && action == action_type {
        assert(wanted + Seq::<usize>::empty() =~= wanted);
    } else {
        lemma_none_of(meanwhile, view_type, action_type, view, action);
        assert(Seq::<usize>::empty() + wanted =~= wanted);
    }
}

proof fn lemma_none_of(
    handlers: Seq<ViewHandler>,
    view_type: u64,
    action_type: u64,
    view: u64,
    action: u64,
)
    requires
        forall|h: ViewHandler| #[trigger]
            handlers.contains(h) ==> h.view_type == view_type && h.action_type == action_type,
        !(view == view_type && action == action_type),
    ensures
        handlers_of(handlers, view, action) == Seq::<usize>::empty(),
    decreases handlers.len(),
{
    if handlers.len() > 0 {
        assert(handlers.contains(handlers.last()));
        let rest = handlers.drop_last();
        assert forall|h: ViewHandler| #[trigger] rest.contains(h) implies h.view_type == view_type
            && h.action_type == action_type by {
            let i = choose|i: int| 0 <= i < rest.len() && rest[i] == h;
            assert(handlers[i] == h);
            assert(handlers.contains(h));
        }
        lemma_none_of(rest, view_type, action_type, view, action);
    }
}

/// The calls for one view of a path.
pub open spec fn calls_at(
    table: ActionsView,
    index: usize,
    view: Option<u64>,
    action_type: u64,
) -> Seq<(usize, usize)> {
    match view {
        Some(view_type) => handlers_of(table.handlers, view_type, action_type).map_values(
            |h: usize| (index, h),
        ),
        None => Seq::empty(),
    }
}

/// All calls for an action: those of the innermost view come first. A view that does not exist has
/// none.
pub open spec fn all_calls(
    table: ActionsView,
    path: Seq<Option<u64>>,
    action_type: u64,
) -> Seq<(usize, usize)>
    decreases path.len(),
{
    if path.len() == 0 {
        Seq::empty()
    } else {
        calls_at(table, (path.len() - 1) as usize, path.last(), action_type) + all_calls(
            table,
            path.drop_last(),
            action_type,
        )
    }
}

impl ActionTable {
    /// No handlers.
    pub fn new() -> (r: ActionTable)
        ensures
            r@ == (ActionsView { handlers: Seq::empty(), global_actions: Map::empty() }),
    {
        let r = ActionTable { handlers: Vec::new(), global_actions: HashMap::new() };
        assert(r@ =~= ActionsView { handlers: Seq::empty(), global_actions: Map::empty() });
        r
    }

    /// Adds a handler for actions in views.
    pub fn add_action(&mut self, view_type: u64, action_type: u64, handler: usize)
        ensures
            final(self)@ == (ActionsView {
                handlers: old(self)@.handlers.push(
                    ViewHandler { view_type, action_type, handler },
                ),
                ..old(self)@
            }),
    {
        self.handlers.push(ViewHandler { view_type, action_type, handler });
    }

    /// Adds the handler for actions that no view takes. An action has at most one.
    pub fn add_global_action(&mut self, action_type: u64, handler: usize)
        requires
            !old(self)@.global_actions.dom().contains(action_type),
        ensures
            final(self)@ == (ActionsView {
                global_actions: old(self)@.global_actions.insert(action_type, handler),
                ..old(self)@
            }),
    {
        self.global_actions.insert(action_type, handler);
    }

    /// The global handler for an action.
    pub fn global_action(&self, action_type: u64) -> (r: Option<usize>)
        ensures
            r == (if self@.global_actions.dom().contains(action_type) {
                Some(self@.global_actions[action_type])
            } else {
                None
            }),
    {
        match self.global_actions.get(&action_type) {
            Some(handler) => Some(*handler),
            None => None,
        }
    }

    /// Takes the handlers of a view for an action out, while they run: the one that was added last is
    /// at the front.
    pub fn take_handlers(&mut self, view_type: u64, action_type: u64) -> (r: Vec<usize>)
        ensures
            r@ == handlers_of(old(self)@.handlers, view_type, action_type),
            final(self)@ == (ActionsView {
                handlers: others_of(old(self)@.handlers, view_type, action_type),
                ..old(self)@
            }),
    {
        let r: Vec<usize> = self.handlers_for(view_type, action_type);
        self.drop_handlers(view_type, action_type);
        r
    }

    fn drop_handlers(&mut self, view_type: u64, action_type: u64)
        ensures
            final(self)@ == (ActionsView {
                handlers: others_of(old(self)@.handlers, view_type, action_type),
                ..old(self)@
            }),
    {
        let ghost all = self@.handlers;
        let mut kept: Vec<ViewHandler> = Vec::new();
        let mut i: usize = 0;
        assert(all.take(0) =~= Seq::empty());
        while i < self.handlers.len()
            invariant
                *self == *old(self),
                all == self.handlers@,
                i <= all.len(),
                kept@ == others_of(all.take(i as int), view_type, action_type),
            decreases self.handlers.len() - i,
        {
            assert(all.take(i + 1).drop_last() =~= all.take(i as int));
            let entry: ViewHandler = self.handlers[i];
            if !(entry.view_type == view_type && entry.action_type == action_type) {
                kept.push(entry);
            }
            i += 1;
        }
        assert(all.take(i as int) =~= all);
        self.handlers = kept;
    }

    /// Puts handlers back that were taken out; the one that was added last is at the front. What was
    /// added meanwhile for the same action and view is lost.
    pub fn put_handlers(&mut self, view_type: u64, action_type: u64, handlers: &Vec<usize>)
        ensures
            final(self)@ == (ActionsView {
                handlers: others_of(old(self)@.handlers, view_type, action_type) + added(
                    view_type,
                    action_type,
                    handlers@,
                ),
                ..old(self)@
            }),
    {
        self.drop_handlers(view_type, action_type);
        let ghost kept = self@;
        let ghost all = added(view_type, action_type, handlers@);
        let mut i: usize = handlers.len();
        assert(self.handlers@ =~= kept.handlers + all.take(0));
        while i > 0
            invariant
                i <= handlers@.len(),
                all == added(view_type, action_type, handlers@),
                self@ == (ActionsView {
                    handlers: kept.handlers + all.take(handlers@.len() - i),
                    ..kept
                }),
            decreases i,
        {
            i -= 1;
            let ghost before = self.handlers@;
            let entry = ViewHandler { view_type, action_type, handler: handlers[i] };
            self.handlers.push(entry);
            assert(all[handlers@.len() - 1 - i] == entry);
            assert(self.handlers@ =~= kept.handlers + all.take(handlers@.len() - i));
        }
        assert(all.take(handlers@.len() as int) =~= all);
    }

    /// Takes the global handler for an action out, while it runs.
    pub fn take_global_action(&mut self, action_type: u64) -> (r: Option<usize>)
        ensures
            r == (if old(self)@.global_actions.dom().contains(action_type) {
                Some(old(self)@.global_actions[action_type])
            } else {
                None
            }),
            final(self)@ == (ActionsView {
                global_actions: old(self)@.global_actions.remove(action_type),
                ..old(self)@
            }),
    {
        let r: Option<usize> = self.global_actions.remove(&action_type);
        assert(self@.global_actions =~= old(self)@.global_actions.remove(action_type));
        r
    }

    /// Puts a global handler back that was taken out. One that was added meanwhile is lost.
    pub fn put_global_action(&mut self, action_type: u64, handler: usize)
        ensures
            final(self)@ == (ActionsView {
                global_actions: old(self)@.global_actions.insert(action_type, handler),
                ..old(self)@
            }),
    {
        self.global_actions.insert(action_type, handler);
    }

    fn handlers_for(&self, view_type: u64, action_type: u64) -> (r: Vec<usize>)
        ensures
            r@ == handlers_of(self@.handlers, view_type, action_type),
    {
        let mut found: Vec<usize> = Vec::new();
        let ghost all = self@.handlers;
        let mut i: usize = self.handlers.len();
        assert(all.take(i as int) =~= all);
        assert(found@ + handlers_of(all, view_type, action_type) =~= handlers_of(
            all,
            view_type,
            action_type,
        ));
        while i > 0
            invariant
                i <= self.handlers.len(),
                all == self@.handlers,
                handlers_of(all, view_type, action_type) == found@ + handlers_of(
                    all.take(i as int),
                    view_type,
                    action_type,
                ),
            decreases i,
        {
            i -= 1;
            let entry: ViewHandler = self.handlers[i];
            assert(all.take(i + 1).drop_last() =~= all.take(i as int));
            assert(all.take(i + 1).last() == entry);
            let ghost before = found@;
            let ghost earlier = handlers_of(all.take(i as int), view_type, action_type);
            if entry.view_type == view_type && entry.action_type == action_type {
                found.push(entry.handler);
                assert(before + (seq![entry.handler] + earlier) =~= found@ + earlier);
            }
        }
        assert(found@ + handlers_of(all.take(0), view_type, action_type) =~= found@);
        found
    }
}

impl Default for ActionTable {
    fn default() -> (r: Self)
        ensures
            r@ == (ActionsView { handlers: Seq::empty(), global_actions: Map::empty() }),
    {
        ActionTable::new()
    }
}

/// How an action that no view took ends.
#[derive(Clone, Copy, Debug, PartialEq, Eq, Structural)]
pub enum DispatchEnd {
    Halted,
    Global { handler: usize },
    Unhandled,
}

/// An action on its way up a path of views. The handlers of a view are looked up when its turn
/// comes.
pub struct ActionDispatch {
    action_type: u64,
    left: usize,
    current: usize,
    calls: Vec<usize>,
    at: usize,
    halted: bool,
}

impl ActionDispatch {
    /// The type of the action.
    pub closed spec fn action_type(self) -> u64 {
        self.action_type
    }

    /// How many views of the path have not had their turn.
    pub closed spec fn left(self) -> usize {
        self.left
    }

    /// Whether a handler took the action.
    pub closed spec fn halted(self) -> bool {
        self.halted
    }

    /// The calls that are left for the view whose turn it is.
    pub closed spec fn current_calls(self) -> Seq<(usize, usize)> {
        self.calls@.skip(self.at as int).map_values(|h: usize| (self.current, h))
    }

    /// Whether the record makes sense.
    pub closed spec fn wf(self) -> bool {
        self.at <= self.calls@.len()
    }

    /// The calls that are left in all.
    pub open spec fn remaining(self, table: ActionsView, path: Seq<Option<u64>>) -> Seq<
        (usize, usize),
    > {
        if self.halted() {
            Seq::empty()
        } else {
            self.current_calls() + all_calls(
                table,
                path.take(self.left() as int),
                self.action_type(),
            )
        }
    }

    /// An action that starts at the end of a path.
    pub fn new(action_type: u64, path_len: usize) -> (r: ActionDispatch)
        ensures
            r.wf(),
            r.action_type() == action_type,
            r.left() == path_len,
            r.current_calls() == Seq::<(usize, usize)>::empty(),
            !r.halted(),
    {
        let r = ActionDispatch {
            action_type,
            left: path_len,
            current: 0,
            calls: Vec::new(),
            at: 0,
            halted: false,
        };
        assert(r.current_calls() =~= Seq::empty());
        r
    }

    /// The next call: the place of a view in the path, and a handler. `path` tells the types of the
    /// views that exist.
    pub fn next_call(&mut self, table: &ActionTable, path: &Vec<Option<u64>>) -> (r: Option<
        (usize, usize),
    >)
        requires
            old(self).wf(),
            old(self).left() <= path.len(),
        ensures
            final(self).wf(),
            final(self).action_type() == old(self).action_type(),
            final(self).halted() == old(self).halted(),
            final(self).left() <= old(self).left(),
            match r {
                Some(call) => {
                    &&& old(self).remaining(table@, path@).len() > 0
                    &&& call == old(self).remaining(table@, path@)[0]
                    &&& final(self).remaining(table@, path@) == old(self).remaining(
                        table@,
                        path@,
                    ).skip(1)
                },
                None => {
                    &&& old(self).remaining(table@, path@).len() == 0
                    &&& final(self).remaining(table@, path@).len() == 0
                },
            },
    {
        if self.halted {
            return None;
        }
        let ghost wanted = self.remaining(table@, path@);
        while self.at >= self.calls.len() && self.left > 0
            invariant
                self.wf(),
                !self.halted(),
                self.left() <= old(self).left() <= path.len(),
                self.action_type() == old(self).action_type(),
                self.remaining(table@, path@) == wanted,
            decreases self.left,
        {
            let ghost rest = path@.take(self.left as int);
            assert(self.current_calls() =~= Seq::empty());
            assert(wanted =~= all_calls(table@, rest, self.action_type));
            self.left = self.left - 1;
            let index: usize = self.left;
            assert(rest.drop_last() =~= path@.take(index as int));
            assert(rest.last() == path@[index as int]);
            self.calls = match path[index] {
                Some(view_type) => table.handlers_for(view_type, self.action_type),
                None => Vec::new(),
            };
            self.current = index;
            self.at = 0;
            assert(self.calls@.skip(0) =~= self.calls@);
            assert(self.current_calls() =~= calls_at(
                table@,
                index,
                path@[index as int],
                self.action_type,
            ));
        }
        if self.at < self.calls.len() {
            let ghost before = self.current_calls();
            let ghost rest = all_calls(table@, path@.take(self.left as int), self.action_type);
            let call: (usize, usize) = (self.current, self.calls[self.at]);
            assert(before[0] == call);
            self.at = self.at + 1;
            assert(self.current_calls() =~= before.skip(1));
            assert((before + rest).skip(1) =~= before.skip(1) + rest);
            Some(call)
        } else {
            assert(self.current_calls() =~= Seq::empty());
            assert(path@.take(0) =~= Seq::empty());
            None
        }
    }

    /// Takes the answer of a handler. Unless it passes the action on, nothing else is called.
    pub fn answered(&mut self, halt: bool)
        requires
            old(self).wf(),
        ensures
            final(self).wf(),
            final(self).action_type() == old(self).action_type(),
            final(self).left() == old(self).left(),
            final(self).current_calls() == old(self).current_calls(),
            final(self).halted() == (old(self).halted() || halt),
    {
        if halt {
            self.halted = true;
        }
        assert(self.current_calls() =~= old(self).current_calls());
    }

    /// How the action ends when no call is left: if no view took it, it goes to the global handler.
    pub fn finish(&self, table: &ActionTable) -> (r: DispatchEnd)
        ensures
            r == (if self.halted() {
                DispatchEnd::Halted
            } else if table@.global_actions.dom().contains(self.action_type()) {
                DispatchEnd::Global { handler: table@.global_actions[self.action_type()] }
            } else {
                DispatchEnd::Unhandled
            }),
    {
        if self.halted {
            DispatchEnd::Halted
        } else {
            match table.global_action(self.action_type) {
                Some(handler) => DispatchEnd::Global { handler },
                None => DispatchEnd::Unhandled,
            }
        }
    }
}

impl DispatchEnd {
    /// Whether somebody took the action.
    pub fn handled(&self) -> (r: bool)
        ensures
            r == !(*self is Unhandled),
    {
        match self {
            DispatchEnd::Unhandled => false,
            _ => true,
        }
    }
}

/// The inner view of a path has its turn before the outer one: the calls of a longer path end with
/// the calls of the path above its last view.
pub proof fn inner_view_comes_first(
    table: ActionsView,
    path: Seq<Option<u64>>,
    view: Option<u64>,
    action_type: u64,
)
    requires
        path.len() <= usize::MAX,
    ensures
        all_calls(table, path.push(view), action_type) == calls_at(
            table,
            path.len() as usize,
            view,
            action_type,
        ) + all_calls(table, path, action_type),
{
    assert(path.push(view).drop_last() =~= path);
}

/// A handler that is added has its turn before those that its view has for the action.
pub proof fn later_handler_comes_first(
    handlers: Seq<ViewHandler>,
    view_type: u64,
    action_type: u64,
    handler: usize,
)
    ensures
        handlers_of(
            handlers.push(ViewHandler { view_type, action_type, handler }),
            view_type,
            action_type,
        ) == seq![handler] + handlers_of(handlers, view_type, action_type),
{
    assert(handlers.push(ViewHandler { view_type, action_type, handler }).drop_last() =~= handlers);
}

/// A view of a responder chain that is gone.
#[derive(Clone, Copy, Debug, PartialEq, Eq, Structural)]
pub struct MissingView {
    pub view_id: usize,
}

impl MissingView {
    /// What is told to the user.
    pub fn message(&self) -> (r: String)
        ensures
            r@ == "View "@ + decimal(self.view_id as nat) + " in responder chain does not exist"@,
    {
        let mut r: String = "View ".to_owned();
        r.append(decimal_text(self.view_id).as_str());
        r.append(" in responder chain does not exist");
        r
    }
}

/// A keystroke goes to a chain of views only if all of them exist. `exists` tells it of each.
pub fn check_responder_chain(chain: &Vec<usize>, exists: &Vec<bool>) -> (r: Result<
    (),
    MissingView,
>)
    requires
        chain.len() == exists.len(),
    ensures
        r is Ok <==> forall|i: int| 0 <= i < exists@.len() ==> exists@[i],
        r matches Err(e) ==> exists|i: int|
            0 <= i < exists@.len() && !(#[trigger] exists@[i]) && e.view_id == chain@[i] && (forall|
                k: int,
            |
                0 <= k < i ==> exists@[k]),
{
    let mut i: usize = 0;
    while i < chain.len()
        invariant
            i <= chain.len() == exists.len(),
            forall|k: int| 0 <= k < i ==> exists@[k],
        decreases chain.len() - i,
    {
        if !exists[i] {
            assert(!exists@[i as int]);
            return Err(MissingView { view_id: chain[i] });
        }
        i += 1;
    }
    Ok(())
}

/// What became of a keystroke at one view: whether an action matched, and whether somebody took it.
#[derive(Clone, Copy, Debug, PartialEq, Eq, Structural)]
pub enum ViewOutcome {
    NoMatch,
    Pending,
    Unhandled,
    Handled,
}

/// A keystroke on its way up a chain of views.
#[derive(Clone, Copy, Debug, PartialEq, Eq, Structural)]
pub struct KeystrokeDispatch {
    pub left: usize,
    pub pending: bool,
    pub handled: bool,
}

/// The answer for a keystroke from what became of it, the innermost view first.
pub open spec fn keystroke_taken(outcomes: Seq<ViewOutcome>) -> bool {
    ||| exists|i: int| 0 <= i < outcomes.len() && #[trigger] outcomes[i] is Handled
    ||| exists|i: int| 0 <= i < outcomes.len() && #[trigger] outcomes[i] is Pending
}

impl KeystrokeDispatch {
    /// A keystroke before the innermost view of a chain.
    pub fn new(chain_len: usize) -> (r: KeystrokeDispatch)
        ensures
            r == (KeystrokeDispatch { left: chain_len, pending: false, handled: false }),
    {
        KeystrokeDispatch { left: chain_len, pending: false, handled: false }
    }

    /// The place of the view whose turn is next; an action that it asks for goes to the chain up to
    /// that place.
    pub fn next_view(&mut self) -> (r: Option<usize>)
        ensures
            r == (if old(self).handled || old(self).left == 0 {
                None
            } else {
                Some((old(self).left - 1) as usize)
            }),
            *final(self) == (if r is Some {
                KeystrokeDispatch { left: (old(self).left - 1) as usize, ..*old(self) }
            } else {
                *old(self)
            }),
    {
        if self.handled || self.left == 0 {
            None
        } else {
            self.left = self.left - 1;
            Some(self.left)
        }
    }

    /// Takes what became of the keystroke at a view; tells whether all pending keystrokes are to be
    /// forgotten.
    pub fn took(&mut self, outcome: ViewOutcome) -> (clear_pending: bool)
        ensures
            *final(self) == (KeystrokeDispatch {
                left: old(self).left,
                pending: old(self).pending || outcome is Pending,
                handled: old(self).handled || outcome is Handled,
            }),
            clear_pending == outcome is Handled,
    {
        match outcome {
            ViewOutcome::Pending => {
                self.pending = true;
                false
            },
            ViewOutcome::Handled => {
                self.handled = true;
                true
            },
            _ => false,
        }
    }

    /// Whether the keystroke was taken or may be the beginning of something.
    pub fn result(&self) -> (r: bool)
        ensures
            r == (self.handled || self.pending),
    {
        self.handled || self.pending
    }
}

/// The record after a list of outcomes.
pub open spec fn record_after(d: KeystrokeDispatch, outcomes: Seq<ViewOutcome>) -> KeystrokeDispatch
    decreases outcomes.len(),
{
    if outcomes.len() == 0 {
        d
    } else {
        let before = record_after(d, outcomes.drop_last());
        KeystrokeDispatch {
            left: before.left,
            pending: before.pending || outcomes.last() is Pending,
            handled: before.handled || outcomes.last() is Handled,
        }
    }
}

/// A keystroke is taken exactly if some view took its action or waits for another keystroke.
pub proof fn taken_by_some_view(chain_len: usize, outcomes: Seq<ViewOutcome>)
    ensures
        ({
            let end = record_after(
                KeystrokeDispatch { left: chain_len, pending: false, handled: false },
                outcomes,
            );
            (end.handled || end.pending) == keystroke_taken(outcomes)
        }),
    decreases outcomes.len(),
{
    if outcomes.len() > 0 {
        let init = outcomes.drop_last();
        taken_by_some_view(chain_len, init);
        let n = outcomes.len() - 1;
        if keystroke_taken(init) {
            if exists|i: int| 0 <= i < init.len() && #[trigger] init[i] is Handled {
                let i = choose|i: int| 0 <= i < init.len() && #[trigger] init[i] is Handled;
                assert(outcomes[i] is Handled);
            } else {
                let i = choose|i: int| 0 <= i < init.len() && #[trigger] init[i] is Pending;
                assert(outcomes[i] is Pending);
            }
        }
        if keystroke_taken(outcomes) && !(outcomes[n] is Handled) && !(outcomes[n] is Pending) {
            if exists|i: int| 0 <= i < outcomes.len() && #[trigger] outcomes[i] is Handled {
                let i = choose|i: int| 0 <= i < outcomes.len() && #[trigger] outcomes[i] is Handled;
                assert(init[i] is Handled);
            } else {
                let i = choose|i: int| 0 <= i < outcomes.len() && #[trigger] outcomes[i] is Pending;
                assert(init[i] is Pending);
            }
        }
    }
}

/// The handlers of a view for an action are found where both agree, the later ones first.
pub proof fn handlers_are_found_by_view_and_action(
    front: Seq<ViewHandler>,
    back: Seq<ViewHandler>,
    h: ViewHandler,
    view_type: u64,
    action_type: u64,
)
    ensures
        handlers_of(front + back, view_type, action_type) == handlers_of(
            back,
            view_type,
            action_type,
        ) + handlers_of(front, view_type, action_type),
        h.view_type == view_type && h.action_type == action_type ==> handlers_of(
            seq![h],
            view_type,
            action_type,
        ) == seq![h.handler],
        h.view_type != view_type || h.action_type != action_type ==> handlers_of(
            seq![h],
            view_type,
            action_type,
        ).len() == 0,
    decreases back.len(),
{
    assert(seq![h].drop_last() == Seq::<ViewHandler>::empty());
    reveal_with_fuel(handlers_of, 2);
    if back.len() == 0 {
        assert(front + back == front);
    } else {
        handlers_are_found_by_view_and_action(front, back.drop_last(), h, view_type, action_type);
        assert((front + back).drop_last() == front + back.drop_last());
        assert(handlers_of(front + back, view_type, action_type) =~= handlers_of(
            back,
            view_type,
            action_type,
        ) + handlers_of(front, view_type, action_type));
    }
}

/// The handlers that are left are those of other views or other actions, in their order.
pub proof fn other_handlers_are_left(
    front: Seq<ViewHandler>,
    back: Seq<ViewHandler>,
    h: ViewHandler,
    view_type: u64,
    action_type: u64,
)
    ensures
        others_of(front + back, view_type, action_type) == others_of(front, view_type, action_type)
            + others_of(back, view_type, action_type),
        h.view_type == view_type && h.action_type == action_type ==> others_of(
            seq![h],
            view_type,
            action_type,
        ).len() == 0,
        h.view_type != view_type || h.action_type != action_type ==> others_of(
            seq![h],
            view_type,
            action_type,
        ) == seq![h],
    decreases back.len(),
{
    assert(seq![h].drop_last() == Seq::<ViewHandler>::empty());
    reveal_with_fuel(others_of, 2);
    if back.len() == 0 {
        assert(front + back == front);
    } else {
        other_handlers_are_left(front, back.drop_last(), h, view_type, action_type);
        assert((front + back).drop_last() == front + back.drop_last());
    }
}

/// A view is called at its place in the path, once for each of its handlers, and a view that is gone is
/// not called.
pub proof fn views_are_called_at_their_place(
    table: ActionsView,
    index: usize,
    view_type: u64,
    action_type: u64,
    i: int,
)
    ensures
        calls_at(table, index, None, action_type).len() == 0,
        calls_at(table, index, Some(view_type), action_type).len() == handlers_of(
            table.handlers,
            view_type,
            action_type,
        ).len(),
        0 <= i < handlers_of(table.handlers, view_type, action_type).len() ==> calls_at(
            table,
            index,
            Some(view_type),
            action_type,
        )[i] == (index, handlers_of(table.handlers, view_type, action_type)[i]),
{
}

/// No view is called on an empty path.
pub proof fn empty_path_calls_nothing(table: ActionsView, action_type: u64)
    ensures
        all_calls(table, Seq::empty(), action_type).len() == 0,
{
}

/// A record says whether some view waits and whether some view has handled the key.
pub proof fn outcomes_are_recorded(d: KeystrokeDispatch, outcomes: Seq<ViewOutcome>)
    ensures
        record_after(d, outcomes).pending <==> d.pending || outcomes.contains(ViewOutcome::Pending),
        record_after(d, outcomes).handled <==> d.handled || outcomes.contains(ViewOutcome::Handled),
        record_after(d, outcomes).left == d.left,
        keystroke_taken(outcomes) <==> outcomes.contains(ViewOutcome::Pending) || outcomes.contains(
            ViewOutcome::Handled,
        ),
    decreases outcomes.len(),
{
    if outcomes.len() > 0 {
        let before = outcomes.drop_last();
        outcomes_are_recorded(d, before);
        assert(before.push(outcomes.last()) == outcomes);
        assert forall|o: ViewOutcome| #[trigger] outcomes.contains(o) <==> before.contains(o)
            || outcomes.last() == o by {
            if outcomes.contains(o) {
                let i = choose|i: int| 0 <= i < outcomes.len() && outcomes[i] == o;
                if i < before.len() {
                    assert(before[i] == o);
                }
            }
            if before.contains(o) {
                let i = choose|i: int| 0 <= i < before.len() && before[i] == o;
                assert(outcomes[i] == o);
            }
            assert(outcomes[outcomes.len() - 1] == outcomes.last());
        }
    }
    if outcomes.contains(ViewOutcome::Pending) {
        let i = choose|i: int| 0 <= i < outcomes.len() && outcomes[i] == ViewOutcome::Pending;
        assert(outcomes[i] is Pending);
    }
    if outcomes.contains(ViewOutcome::Handled) {
        let i = choose|i: int| 0 <= i < outcomes.len() && outcomes[i] == ViewOutcome::Handled;
        assert(outcomes[i] is Handled);
    }
}

/// Handlers that are added are found for their view and action, in the order in which they were, and
/// for no other.
pub proof fn added_handlers_are_found(
    view_type: u64,
    action_type: u64,
    handlers: Seq<usize>,
    view: u64,
    action: u64,
)
    ensures
        handlers_of(added(view_type, action_type, handlers), view_type, action_type) == handlers,
        view != view_type || action != action_type ==> handlers_of(
            added(view_type, action_type, handlers),
            view,
            action,
        ).len() == 0,
        added(view_type, action_type, handlers).len() == handlers.len(),
{
    lemma_handlers_of_added(view_type, action_type, handlers, view_type, action_type);
    lemma_handlers_of_added(view_type, action_type, handlers, view, action);
}

} // verus!
