//! Names of windows and of elements.
use vstd::prelude::*;
use std::marker::PhantomData;
use crate::focus::FocusId;

verus! {

/// A window.
#[derive(Clone, Copy, Debug, PartialEq, Eq, Structural)]
pub struct WindowId(pub u64);

/// A window whose root is a view of a type.
pub struct WindowHandle<S> {
    id: WindowId,
    state_type: PhantomData<S>,
}

/// A window, and the number of the type of its root view.
#[derive(Clone, Copy, Debug, PartialEq, Eq, Structural)]
pub struct AnyWindowHandle {
    id: WindowId,
    state_type: u64,
}

impl<S> Copy for WindowHandle<S> {

}

impl<S> Clone for WindowHandle<S> {
    fn clone(&self) -> (r: Self)
        ensures
            r.id() == self.id(),
    {
        WindowHandle { id: self.id, state_type: PhantomData }
    }
}

impl<S> WindowHandle<S> {
    /// The window.
    pub closed spec fn id(self) -> WindowId {
        self.id
    }

    /// The handle of a window.
    pub fn new(id: WindowId) -> (r: WindowHandle<S>)
        ensures
            r.id() == id,
    {
        WindowHandle { id, state_type: PhantomData }
    }

    /// The handle without its type, which is kept as a number.
    pub fn into_any(self, state_type: u64) -> (r: AnyWindowHandle)
        ensures
            r.id() == self.id(),
            r.state_type() == state_type,
    {
        AnyWindowHandle { id: self.id, state_type }
    }
}

impl AnyWindowHandle {
    /// The window.
    pub closed spec fn id(self) -> WindowId {
        self.id
    }

    /// The number of the type of its root view.
    pub closed spec fn state_type(self) -> u64 {
        self.state_type
    }

    /// The window.
    pub fn window_id(&self) -> (r: WindowId)
        ensures
            r == self.id(),
    {
        self.id
    }

    /// The handle with a type, if its root view is of it.
    pub fn downcast<S>(&self, state_type: u64) -> (r: Option<WindowHandle<S>>)
        ensures
            r is Some <==> self.state_type() == state_type,
            r matches Some(handle) ==> handle.id() == self.id(),
    {
        if self.state_type == state_type {
            Some(WindowHandle::new(self.id))
        } else {
            None
        }
    }
}

/// The name of an element within the one around it.
pub enum ElementId {
    View(u64),
    Number(usize),
    Name(String),
    FocusHandle(FocusId),
}

/// The meaning of a name.
pub enum ElementIdView {
    View(u64),
    Number(usize),
    Name(Seq<char>),
    FocusHandle(FocusId),
}

impl View for ElementId {
    type V = ElementIdView;

    open spec fn view(&self) -> ElementIdView {
        match *self {
            ElementId::View(id) => ElementIdView::View(id),
            ElementId::Number(n) => ElementIdView::Number(n),
            ElementId::Name(name) => ElementIdView::Name(name@),
            ElementId::FocusHandle(id) => ElementIdView::FocusHandle(id),
        }
    }
}

impl ElementId {
    /// The name of a view.
    pub fn of_view(id: u64) -> (r: ElementId)
        ensures
            r@ == ElementIdView::View(id),
    {
        ElementId::View(id)
    }

    /// A number as a name.
    pub fn of_number(n: usize) -> (r: ElementId)
        ensures
            r@ == ElementIdView::Number(n),
    {
        ElementId::Number(n)
    }

    /// A signed number as a name.
    pub fn of_int(n: i32) -> (r: ElementId)
        ensures
            r@ == ElementIdView::Number(n as usize),
    {
        ElementId::Number(n as usize)
    }

    /// A text as a name.
    pub fn of_text(name: &str) -> (r: ElementId)
        ensures
            r@ == ElementIdView::Name(name@),
    {
        ElementId::Name(name.to_owned())
    }

    /// The name of what can have the focus.
    pub fn of_focus(id: FocusId) -> (r: ElementId)
        ensures
            r@ == ElementIdView::FocusHandle(id),
    {
        ElementId::FocusHandle(id)
    }

    /// Whether two names are the same.
    pub fn same(&self, other: &ElementId) -> (r: bool)
        ensures
            r == (self@ == other@),
    {
        match (self, other) {
            (ElementId::View(a), ElementId::View(b)) => *a == *b,
            (ElementId::Number(a), ElementId::Number(b)) => *a == *b,
            (ElementId::Name(a), ElementId::Name(b)) => crate::text::same_text(
                a.as_str(),
                b.as_str(),
            ),
            (ElementId::FocusHandle(a), ElementId::FocusHandle(b)) => a.same(b),
            _ => false,
        }
    }
}

} // verus!
