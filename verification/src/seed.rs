//! The users, the organisation and the channel that a fresh database is filled with.
use vstd::prelude::*;
use crate::text::{decimal, decimal_text, same_text};

verus! {

/// How many pages are asked for at most.
pub const MAX_PAGES: usize = 20;

/// A user of a page.
pub struct GitHubUser {
    pub id: usize,
    pub login: String,
}

/// A user that the database shall have.
pub struct SeedUser {
    pub login: String,
    pub email: Option<String>,
}

/// The name and the address of a user.
#[verifier::ext_equal]
pub struct SeedUserView {
    pub login: Seq<char>,
    pub email: Option<Seq<char>>,
}

impl View for SeedUser {
    type V = SeedUserView;

    open spec fn view(&self) -> SeedUserView {
        SeedUserView {
            login: self.login@,
            email: match self.email {
                Some(email) => Some(email@),
                None => None,
            },
        }
    }
}

/// The meaning of a list of users.
pub open spec fn user_views(users: Seq<SeedUser>) -> Seq<SeedUserView> {
    users.map_values(|u: SeedUser| u@)
}

/// The users of a page, whose addresses are not known.
pub open spec fn page_users(users: Seq<GitHubUser>) -> Seq<SeedUserView> {
    users.map_values(|u: GitHubUser| SeedUserView { login: u.login@, email: None })
}

/// A user with an address.
pub open spec fn with_email(login: Seq<char>, email: Seq<char>) -> SeedUserView {
    SeedUserView { login, email: Some(email) }
}

fn user_with_email(login: &str, email: &str) -> (r: SeedUser)
    ensures
        r@ == with_email(login@, email@),
{
    SeedUser { login: login.to_owned(), email: Some(email.to_owned()) }
}

/// The users that the database always has.
pub fn zed_users() -> (r: Vec<SeedUser>)
    ensures
        user_views(r@) == seq![
            with_email("nathansobo"@, "nathan@zed.dev"@),
            with_email("maxbrunsfeld"@, "max@zed.dev"@),
            with_email("as-cii"@, "antonio@zed.dev"@),
            with_email("iamnbutler"@, "nate@zed.dev"@),
            with_email("gibusu"@, "greg@zed.dev"@),
            with_email("Kethku"@, "keith@zed.dev"@),
        ],
{
    let mut r: Vec<SeedUser> = Vec::new();
    r.push(user_with_email("nathansobo", "nathan@zed.dev"));
    r.push(user_with_email("maxbrunsfeld", "max@zed.dev"));
    r.push(user_with_email("as-cii", "antonio@zed.dev"));
    r.push(user_with_email("iamnbutler", "nate@zed.dev"));
    r.push(user_with_email("gibusu", "greg@zed.dev"));
    r.push(user_with_email("Kethku", "keith@zed.dev"));
    r
}

/// What is to be done with a user: the one of that name is kept, or one is added, who is an
/// administrator.
#[derive(Debug)]
pub enum UserStep {
    Keep { id: i32 },
    Create { login: String, email: Option<String>, admin: bool },
}

/// What is to be done with a user, given who has that name in the database.
pub fn user_step(user: SeedUser, found: Option<i32>) -> (r: UserStep)
    ensures
        r == (match found {
            Some(id) => UserStep::Keep { id },
            None => UserStep::Create { login: user.login, email: user.email, admin: true },
        }),
{
    match found {
        Some(id) => UserStep::Keep { id },
        None => UserStep::Create { login: user.login, email: user.email, admin: true },
    }
}

/// The address of the page behind a user.
pub open spec fn page_uri(since: Option<usize>) -> Seq<char> {
    match since {
        None => "https://api.github.com/users?per_page=100"@,
        Some(id) => "https://api.github.com/users?per_page=100"@ + "&since="@ + decimal(id as nat),
    }
}

/// The address of the page behind a user.
pub fn users_uri(since: Option<usize>) -> (r: String)
    ensures
        r@ == page_uri(since),
{
    let mut uri: String = "https://api.github.com/users?per_page=100".to_owned();
    if let Some(id) = since {
        uri.append("&since=");
        uri.append(decimal_text(id).as_str());
    }
    uri
}

/// The users so far, and the page that is next.
pub struct UserPages {
    users: Vec<SeedUser>,
    last_user_id: Option<usize>,
    page: usize,
    ended: bool,
}

/// The meaning of that state.
#[verifier::ext_equal]
pub struct UserPagesView {
    pub users: Seq<SeedUserView>,
    pub last_user_id: Option<usize>,
    pub page: usize,
    pub ended: bool,
}

impl View for UserPages {
    type V = UserPagesView;

    closed spec fn view(&self) -> UserPagesView {
        UserPagesView {
            users: user_views(self.users@),
            last_user_id: self.last_user_id,
            page: self.page,
            ended: self.ended,
        }
    }
}

/// The state after a page came. A page without users is the last one.
pub open spec fn page_taken(s: UserPagesView, users: Seq<GitHubUser>) -> UserPagesView {
    UserPagesView {
        users: s.users + page_users(users),
        last_user_id: if users.len() > 0 {
            Some(users.last().id)
        } else {
            s.last_user_id
        },
        page: (s.page + 1) as usize,
        ended: users.len() == 0,
    }
}

impl UserPages {
    /// Begins with users who are known already.
    pub fn new(users: Vec<SeedUser>) -> (r: UserPages)
        ensures
            r@ == (UserPagesView {
                users: user_views(users@),
                last_user_id: None,
                page: 0,
                ended: false,
            }),
    {
        UserPages { users, last_user_id: None, page: 0, ended: false }
    }

    /// The address of the next page, unless there are enough.
    pub fn next_uri(&self) -> (r: Option<String>)
        ensures
            r is Some <==> !self@.ended && self@.page < MAX_PAGES,
            r matches Some(uri) ==> uri@ == page_uri(self@.last_user_id),
    {
        if self.ended || self.page >= MAX_PAGES {
            None
        } else {
            Some(users_uri(self.last_user_id))
        }
    }

    /// Takes a page.
    pub fn take_page(&mut self, users: &Vec<GitHubUser>)
        requires
            !old(self)@.ended,
            old(self)@.page < MAX_PAGES,
        ensures
            final(self)@ == page_taken(old(self)@, users@),
    {
        let mut i: usize = 0;
        let ghost new = page_users(users@);
        assert(user_views(self.users@) =~= old(self)@.users + new.take(0));
        while i < users.len()
            invariant
                i <= users.len(),
                new == page_users(users@),
                self@ == (UserPagesView {
                    users: old(self)@.users + new.take(i as int),
                    ..old(self)@
                }),
            decreases users.len() - i,
        {
            let ghost before = self.users@;
            let user = SeedUser { login: users[i].login.clone(), email: None };
            self.users.push(user);
            i += 1;
            assert(user_views(self.users@) =~= user_views(before).push(user@));
            assert(user_views(self.users@) =~= old(self)@.users + new.take(i as int));
        }
        assert(new.take(i as int) =~= new);
        let n: usize = users.len();
        if n > 0 {
            self.last_user_id = Some(users[n - 1].id);
        } else {
            self.ended = true;
        }
        self.page = self.page + 1;
    }

    /// All users so far.
    pub fn users(&self) -> (r: &Vec<SeedUser>)
        ensures
            user_views(r@) == self@.users,
    {
        &self.users
    }
}

/// Users are never lost.
pub proof fn users_are_kept(s: UserPagesView, users: Seq<GitHubUser>)
    ensures
        page_taken(s, users).users.take(s.users.len() as int) == s.users,
{
    assert(page_taken(s, users).users.take(s.users.len() as int) =~= s.users);
}

/// What is to be done with the organisation: the one that is there is kept, or one is added.
#[derive(Debug)]
pub enum OrgStep {
    Keep { id: i32 },
    Create { name: String, slug: String },
}

/// The short name that the organisation is found by.
pub fn org_slug() -> (r: String)
    ensures
        r@ == "zed"@,
{
    "zed".to_owned()
}

/// What is to be done with the organisation, given which one has its short name.
pub fn org_step(found: Option<i32>) -> (r: OrgStep)
    ensures
        match found {
            Some(id) => r == (OrgStep::Keep { id }),
            None => r matches OrgStep::Create { name, slug } && name@ == "Zed"@ && slug@ == "zed"@,
        },
{
    match found {
        Some(id) => OrgStep::Keep { id },
        None => OrgStep::Create { name: "Zed".to_owned(), slug: org_slug() },
    }
}

/// What is to be done with the channel: the one that is there is kept as it is, or one is added,
/// with that many messages.
#[derive(Debug)]
pub enum ChannelStep {
    Keep { id: i32 },
    Create { name: String, message_count: usize },
}

/// How many messages a new channel gets.
pub const MESSAGE_COUNT: usize = 1000;

/// How many words a message has at most; it has one at least.
pub const MAX_WORDS: u64 = 50;

/// Whether a channel is the first one with the general name.
pub open spec fn first_general(channels: Seq<(i32, String)>, i: int) -> bool {
    &&& 0 <= i < channels.len()
    &&& channels[i].1@ == "General"@
    &&& forall|j: int| 0 <= j < i ==> (#[trigger] channels[j]).1@ != "General"@
}

/// What is to be done with the channel, given the channels of the organisation.
pub fn channel_step(channels: &Vec<(i32, String)>) -> (r: ChannelStep)
    ensures
        match r {
            ChannelStep::Keep { id } => exists|i: int| #[trigger]
                first_general(channels@, i) && id == channels@[i].0,
            ChannelStep::Create { name, message_count } => {
                &&& forall|i: int|
                    0 <= i < channels@.len() ==> (#[trigger] channels@[i]).1@ != "General"@
                &&& name@ == "General"@
                &&& message_count == MESSAGE_COUNT
            },
        },
{
    let mut i: usize = 0;
    while i < channels.len()
        invariant
            i <= channels.len(),
            forall|j: int| 0 <= j < i ==> (#[trigger] channels@[j]).1@ != "General"@,
        decreases channels.len() - i,
    {
        if same_text(channels[i].1.as_str(), "General") {
            assert(first_general(channels@, i as int));
            return ChannelStep::Keep { id: channels[i].0 };
        }
        i += 1;
    }
    ChannelStep::Create { name: "General".to_owned(), message_count: MESSAGE_COUNT }
}

/// There is at most one channel that is kept.
pub proof fn one_channel_is_kept(channels: Seq<(i32, String)>, i: int, k: int)
    requires
        first_general(channels, i),
        first_general(channels, k),
    ensures
        i == k,
{
    if i < k {
        assert(channels[i].1@ != "General"@);
    }
    if k < i {
        assert(channels[k].1@ != "General"@);
    }
}

/// How far back a message may lie, in nanoseconds: a hundred days.
pub const MAX_OFFSET: u64 = 8_640_000_000_000_000;

/// The times that lie these offsets before now.
pub open spec fn times_before(now: i128, offsets: Seq<u64>) -> Seq<int> {
    offsets.map_values(|offset: u64| now - offset)
}

/// Whether times do not go back.
pub open spec fn ascends(times: Seq<i128>) -> bool {
    forall|i: int, j: int| 0 <= i <= j < times.len() ==> times[i] <= times[j]
}

/// Times as numbers.
pub open spec fn as_numbers(times: Seq<i128>) -> Seq<int> {
    times.map_values(|t: i128| t as int)
}

/// The times of the messages, earliest first, from what was drawn for each: as often as it was
/// drawn, each time stands in the list.
pub fn message_times(now: i128, offsets: &Vec<u64>) -> (r: Vec<i128>)
    requires
        now >= i128::MIN + MAX_OFFSET,
        forall|i: int| 0 <= i < offsets@.len() ==> #[trigger] offsets@[i] <= MAX_OFFSET,
    ensures
        ascends(r@),
        as_numbers(r@).to_multiset() == times_before(now, offsets@).to_multiset(),
        forall|i: int| 0 <= i < r@.len() ==> now - MAX_OFFSET <= #[trigger] r@[i] <= now,
{
    let mut times: Vec<i128> = Vec::new();
    let ghost all = times_before(now, offsets@);
    let mut n: usize = 0;
    assert(as_numbers(times@) =~= all.take(0));
    while n < offsets.len()
        invariant
            n <= offsets.len(),
            now >= i128::MIN + MAX_OFFSET,
            forall|i: int| 0 <= i < offsets@.len() ==> #[trigger] offsets@[i] <= MAX_OFFSET,
            all == times_before(now, offsets@),
            times@.len() == n,
            ascends(times@),
            as_numbers(times@).to_multiset() == all.take(n as int).to_multiset(),
            forall|i: int| 0 <= i < times@.len() ==> now - MAX_OFFSET <= #[trigger] times@[i] <= now,
        decreases offsets.len() - n,
    {
        assert(offsets@[n as int] <= MAX_OFFSET);
        let time: i128 = now - offsets[n] as i128;
        let mut at: usize = n;
        while at > 0 && times[at - 1] > time
            invariant
                at <= n == times@.len(),
                forall|i: int| at <= i < n ==> #[trigger] times@[i] > time,
            decreases at,
        {
            at -= 1;
        }
        let ghost before = times@;
        times.insert(at, time);
        proof {
            assert(ascends(times@)) by {
                assert forall|i: int, j: int| 0 <= i <= j < times@.len() implies times@[i]
                    <= times@[j] by {
                    if i < at && j == at {
                        assert(before[i] <= before[at - 1]);
                    }
                    if i < at && j > at {
                        assert(before[i] <= before[j - 1]);
                    }
                    if i > at {
                        assert(before[i - 1] <= before[j - 1]);
                    }
                    if j < at {
                        assert(before[i] <= before[j]);
                    }
                }
            }
            assert(as_numbers(times@) =~= as_numbers(before).insert(at as int, time as int));
            vstd::seq_lib::to_multiset_insert(as_numbers(before), at as int, time as int);
            vstd::seq_lib::to_multiset_build(all.take(n as int), time as int);
            assert(all.take(n + 1) =~= all.take(n as int).push(time as int));
            assert(as_numbers(times@).to_multiset() =~= all.take(n + 1).to_multiset());
        }
        n += 1;
    }
    assert(all.take(n as int) =~= all);
    times
}

/// A place for somebody in the organisation or in the channel.
#[derive(Clone, Copy, Debug, PartialEq, Eq, Structural)]
pub enum MemberStep {
    Org { org_id: i32, user_id: i32, admin: bool },
    Channel { channel_id: i32, user_id: i32, admin: bool },
}

/// Everybody is an administrator of the organisation, and then of the channel, one user after the
/// other.
pub fn member_steps(org_id: i32, channel_id: i32, user_ids: &Vec<i32>) -> (r: Vec<MemberStep>)
    ensures
        r@.len() == 2 * user_ids@.len(),
        forall|i: int|
            0 <= i < user_ids@.len() ==> #[trigger] r@[2 * i] == (MemberStep::Org {
                org_id,
                user_id: user_ids@[i],
                admin: true,
            }) && r@[2 * i + 1] == (MemberStep::Channel {
                channel_id,
                user_id: user_ids@[i],
                admin: true,
            }),
{
    let mut r: Vec<MemberStep> = Vec::new();
    let mut i: usize = 0;
    while i < user_ids.len()
        invariant
            i <= user_ids.len(),
            r@.len() == 2 * i,
            forall|j: int|
                0 <= j < i ==> #[trigger] r@[2 * j] == (MemberStep::Org {
                    org_id,
                    user_id: user_ids@[j],
                    admin: true,
                }) && r@[2 * j + 1] == (MemberStep::Channel {
                    channel_id,
                    user_id: user_ids@[j],
                    admin: true,
                }),
        decreases user_ids.len() - i,
    {
        r.push(MemberStep::Org { org_id, user_id: user_ids[i], admin: true });
        r.push(MemberStep::Channel { channel_id, user_id: user_ids[i], admin: true });
        i += 1;
    }
    r
}

/// A page is asked for behind the last user that is known.
pub proof fn pages_begin_behind_the_last_user(id: usize)
    ensures
        page_uri(None) == "https://api.github.com/users?per_page=100"@,
        page_uri(Some(id)) == page_uri(None) + "&since="@ + decimal(id as nat),
{
}

/// A page adds its users without an address, in order, and moves on to its last user. An empty page
/// is the end.
pub proof fn pages_add_their_users(s: UserPagesView, users: Seq<GitHubUser>, i: int)
    requires
        s.page < usize::MAX,
    ensures
        page_taken(s, users).users.len() == s.users.len() + users.len(),
        0 <= i < users.len() ==> page_taken(s, users).users[s.users.len() + i].login
            == users[i].login@ && page_taken(s, users).users[s.users.len() + i].email is None,
        users.len() > 0 ==> page_taken(s, users).last_user_id == Some(users.last().id),
        users.len() == 0 ==> page_taken(s, users).last_user_id == s.last_user_id,
        page_taken(s, users).page == s.page + 1,
        page_taken(s, users).ended <==> users.len() == 0,
{
}

/// A user with an address has that login and that address.
pub proof fn addresses_are_kept(login: Seq<char>, email: Seq<char>)
    ensures
        with_email(login, email).login == login,
        with_email(login, email).email == Some(email),
{
}

/// Times lie before now by their offsets, each in its place.
pub proof fn times_lie_before_now(now: i128, offsets: Seq<u64>, i: int)
    requires
        0 <= i < offsets.len(),
    ensures
        times_before(now, offsets).len() == offsets.len(),
        times_before(now, offsets)[i] + offsets[i] == now,
{
}

/// Times that ascend begin with the earliest and end with the latest.
pub proof fn first_time_is_the_earliest(times: Seq<i128>, i: int)
    requires
        ascends(times),
        0 <= i < times.len(),
    ensures
        times[0] <= times[i] <= times[times.len() - 1],
        as_numbers(times)[i] == times[i],
{
}

} // verus!
