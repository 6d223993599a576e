//! Who may call: sessions handed out at login, and the check of a request's
//! bearer token against them.

use vstd::prelude::*;

verus! {

/// Whether `c` is white space, as `char::is_whitespace` tells it.
pub uninterp spec fn white_space(c: char) -> bool;

/// Every character of `text` is white space: trimmed, nothing is left.
pub open spec fn blank(text: Seq<char>) -> bool {
    forall|i: int| 0 <= i < text.len() ==> white_space(#[trigger] text[i])
}

/// `end` is where the part of `text` before its first `@` ends: at that
/// `@`, or at the end of a text without one.
pub open spec fn local_part_ends(text: Seq<char>, end: int) -> bool {
    &&& 0 <= end <= text.len()
    &&& forall|i: int| 0 <= i < end ==> #[trigger] text[i] != '@'
    &&& end < text.len() ==> text[end] == '@'
}

/// The words that open a bearer credential.
pub open spec fn bearer_prefix() -> Seq<char> {
    seq!['B', 'e', 'a', 'r', 'e', 'r', ' ']
}

/// The token that the header value `header` carries, if it is a bearer
/// credential.
pub open spec fn bearer_of(header: Seq<char>) -> Option<Seq<char>> {
    if bearer_prefix().is_prefix_of(header) {
        Some(header.skip(7))
    } else {
        None
    }
}

/// A user as a login names them.
pub struct LoginUser {
    pub name: String,
    pub email: String,
}

/// The answer to a login: the session's token and its user.
pub struct LoginResp {
    pub token: String,
    pub user: LoginUser,
}

/// Why a caller is turned away.
#[derive(Clone, Copy, Debug, PartialEq, Eq, Structural)]
pub enum AuthError {
    /// No credential, a malformed one, or one that no session has.
    Unauthorized,
}

/// One session, as plain values.
pub struct SessionView {
    pub token: Seq<char>,
    pub name: Seq<char>,
    pub email: Seq<char>,
}

/// Whether some session has the token `token`.
pub open spec fn known(sessions: Seq<SessionView>, token: Seq<char>) -> bool {
    exists|i: int| 0 <= i < sessions.len() && (#[trigger] sessions[i]).token == token
}

/// No token belongs to two sessions.
pub open spec fn distinct_tokens(sessions: Seq<SessionView>) -> bool {
    forall|i: int, j: int|
        0 <= i < sessions.len() && 0 <= j < sessions.len() && (#[trigger] sessions[i]).token == (
        #[trigger] sessions[j]).token ==> i == j
}

/// `after` is `before` with `session` stored under its token: in the place
/// of the session that had the token, or else at the end.
pub open spec fn stored(
    before: Seq<SessionView>,
    session: SessionView,
    after: Seq<SessionView>,
) -> bool {
    if known(before, session.token) {
        exists|k: int|
            0 <= k < before.len() && (#[trigger] before[k]).token == session.token && after
                == before.update(k, session)
    } else {
        after == before.push(session)
    }
}

struct Session {
    token: String,
    user: LoginUser,
}

/// The sessions that logins have opened.
pub struct Sessions {
    entries: Vec<Session>,
}

/// Whether `email` is blank.
pub fn is_blank(email: &str) -> (empty: bool)
    ensures
        empty == blank(email@),
{
    let ghost text = email@;
    let mut empty = true;
    for c in it: email.chars()
        invariant
            it.seq() == text,
            empty == blank(text.take(it.index() as int)),
    {
        let ghost k = it.index() as int;
        let white = is_white_space(c);
        proof {
            let shorter = text.take(k);
            let longer = text.take(k + 1);
            assert(longer[k] == c);
            assert forall|i: int| 0 <= i < k implies longer[i] == shorter[i] by {}
            if blank(longer) {
                assert forall|i: int| 0 <= i < shorter.len() implies white_space(
                    #[trigger] shorter[i],
                ) by {
                    assert(white_space(longer[i]));
                }
            }
            if blank(shorter) && white {
                assert forall|i: int| 0 <= i < longer.len() implies white_space(
                    #[trigger] longer[i],
                ) by {
                    if i < k {
                        assert(white_space(shorter[i]));
                    }
                }
            }
        }
        if !white {
            empty = false;
        }
    }
    proof {
        assert(text.take(text.len() as int) =~= text);
    }
    empty
}

/// The name that a login gives its user: the part of `email` before its
/// first `@`, all of it where there is none.
pub fn login_name(email: &str) -> (name: String)
    ensures
        exists|end: int| #[trigger] local_part_ends(email@, end) && name@ == email@.take(end),
{
    let ghost text = email@;
    let ghost mut end: int = 0;
    let mut chars: Vec<char> = Vec::new();
    let mut open = true;
    for c in it: email.chars()
        invariant
            it.seq() == text,
            open ==> end == it.index(),
            !open ==> end < it.index() && text[end] == '@',
            0 <= end <= it.index(),
            forall|i: int| 0 <= i < end ==> #[trigger] text[i] != '@',
            chars@ == text.take(end),
    {
        if open {
            if c == '@' {
                open = false;
            } else {
                chars.push(c);
                proof {
                    assert(text.take(end).push(c) =~= text.take(end + 1));
                    end = end + 1;
                }
            }
        }
    }
    proof {
        assert(local_part_ends(text, end));
    }
    text_of(chars)
}

/// The token of a bearer credential, or nothing where `header` is none.
pub fn bearer_token(header: &str) -> (token: Option<String>)
    ensures
        match token {
            Some(text) => bearer_of(header@) == Some(text@),
            None => bearer_of(header@).is_none(),
        },
{
    let prefix: [char; 7] = ['B', 'e', 'a', 'r', 'e', 'r', ' '];
    let ghost text = header@;
    let mut matched: usize = 0;
    let mut fits = true;
    let mut rest: Vec<char> = Vec::new();
    for c in it: header.chars()
        invariant
            it.seq() == text,
            prefix@ == bearer_prefix(),
            matched <= 7,
            fits ==> matched == if it.index() < 7 {
                it.index() as int
            } else {
                7
            },
            fits ==> forall|i: int| 0 <= i < matched ==> text[i] == bearer_prefix()[i],
            fits && it.index() >= 7 ==> rest@ == text.subrange(7, it.index() as int),
            fits && it.index() < 7 ==> rest@ == Seq::<char>::empty(),
            !fits ==> exists|i: int| 0 <= i < 7 && i < text.len() && text[i] != bearer_prefix()[i],
    {
        let ghost k = it.index() as int;
        if fits {
            if matched < 7 {
                if c == prefix[matched] {
                    matched = matched + 1;
                    proof {
                        if matched == 7 {
                            assert(text.subrange(7, 7) =~= Seq::<char>::empty());
                        }
                    }
                } else {
                    fits = false;
                    proof {
                        assert(text[k] != bearer_prefix()[k]);
                    }
                }
            } else {
                rest.push(c);
                proof {
                    assert(text.subrange(7, k).push(c) =~= text.subrange(7, k + 1));
                }
            }
        }
    }
    if fits && matched == 7 {
        proof {
            assert(bearer_prefix() =~= text.subrange(0, 7));
            assert(text.subrange(7, text.len() as int) =~= text.skip(7));
        }
        Some(text_of(rest))
    } else {
        proof {
            if bearer_prefix().is_prefix_of(text) {
                assert(bearer_prefix() =~= text.subrange(0, 7));
                assert forall|i: int| 0 <= i < 7 implies text[i] == bearer_prefix()[i] by {
                    assert(text.subrange(0, 7)[i] == text[i]);
                }
            }
        }
        None
    }
}

impl Sessions {
    /// The sessions, as plain values.
    pub closed spec fn view(&self) -> Seq<SessionView> {
        Seq::new(
            self.entries@.len(),
            |i: int|
                (SessionView {
                    token: self.entries@[i].token@,
                    name: self.entries@[i].user.name@,
                    email: self.entries@[i].user.email@,
                }),
        )
    }

    pub open spec fn wf(&self) -> bool {
        distinct_tokens(self@)
    }

    /// No session yet.
    pub fn new() -> (sessions: Sessions)
        ensures
            sessions.wf(),
            sessions@ == Seq::<SessionView>::empty(),
    {
        let sessions = Sessions { entries: Vec::new() };
        proof {
            assert(sessions@ =~= Seq::<SessionView>::empty());
        }
        sessions
    }

    fn locate(&self, token: &String) -> (found: Option<usize>)
        ensures
            match found {
                Some(k) => k < self@.len() && self@[k as int].token == token@,
                None => !known(self@, token@),
            },
    {
        let mut i: usize = 0;
        while i < self.entries.len()
            invariant
                i <= self.entries.len(),
                forall|j: int| 0 <= j < i ==> (#[trigger] self@[j]).token != token@,
            decreases self.entries.len() - i,
        {
            if self.entries[i].token == *token {
                return Some(i);
            }
            i = i + 1;
        }
        None
    }

    /// Whether some session has the token `token`.
    pub fn has_token(&self, token: &String) -> (found: bool)
        ensures
            found == known(self@, token@),
    {
        self.locate(token).is_some()
    }

    /// The number of sessions.
    pub fn len(&self) -> (count: usize)
        ensures
            count == self@.len(),
    {
        self.entries.len()
    }

    /// Whether a request with the authorization header value `header` may
    /// pass: it must carry a bearer token that some session has.
    pub fn authorize(&self, header: Option<&str>) -> (r: Result<(), AuthError>)
        ensures
            r.is_ok() == match header {
                Some(value) => match bearer_of(value@) {
                    Some(token) => known(self@, token),
                    None => false,
                },
                None => false,
            },
    {
        let value = match header {
            Some(value) => value,
            None => {
                return Err(AuthError::Unauthorized);
            },
        };
        match bearer_token(value) {
            Some(token) => if self.has_token(&token) {
                Ok(())
            } else {
                Err(AuthError::Unauthorized)
            },
            None => Err(AuthError::Unauthorized),
        }
    }

    /// Opens a session under `token` for the user with address `email` and
    /// returns it. A token that a session already has passes to the new
    /// user.
    pub fn open(&mut self, token: String, email: String) -> (resp: LoginResp)
        requires
            old(self).wf(),
        ensures
            final(self).wf(),
            resp.token@ == token@,
            resp.user.email@ == email@,
            exists|end: int| #[trigger]
                local_part_ends(email@, end) && resp.user.name@ == email@.take(end),
            stored(
                old(self)@,
                SessionView { token: token@, name: resp.user.name@, email: email@ },
                final(self)@,
            ),
    {
        let name = login_name(email.as_str());
        let resp = LoginResp {
            token: token.clone(),
            user: LoginUser { name: name.clone(), email: email.clone() },
        };
        let ghost before = self@;
        let ghost session = SessionView { token: token@, name: name@, email: email@ };
        let entry = Session { token, user: LoginUser { name, email } };
        match self.locate(&entry.token) {
            Some(k) => {
                self.entries[k] = entry;
                proof {
                    assert(self@ =~= before.update(k as int, session));
                    assert forall|i: int, j: int|
                        0 <= i < self@.len() && 0 <= j < self@.len() && (#[trigger] self@[i]).token
                            == (#[trigger] self@[j]).token implies i == j by {
                        assert(before[i].token == before[j].token);
                    }
                }
            },
            None => {
                self.entries.push(entry);
                proof {
                    assert(self@ =~= before.push(session));
                    assert forall|i: int, j: int|
                        0 <= i < self@.len() && 0 <= j < self@.len() && (#[trigger] self@[i]).token
                            == (#[trigger] self@[j]).token implies i == j by {
                        if i < before.len() && j < before.len() {
                            assert(before[i].token == before[j].token);
                        } else if i < before.len() {
                            assert(before[i].token == session.token);
                        } else if j < before.len() {
                            assert(before[j].token == session.token);
                        }
                    }
                }
            },
        }
        resp
    }

    /// Logs the user with address `email` in under `token`: opens the
    /// session, unless the address is blank. A blank address is turned away
    /// and changes nothing.
    pub fn login_as(&mut self, token: String, email: String) -> (r: Result<LoginResp, AuthError>)
        requires
            old(self).wf(),
        ensures
            final(self).wf(),
            match r {
                Ok(resp) => {
                    &&& !blank(email@)
                    &&& resp.token@ == token@
                    &&& resp.user.email@ == email@
                    &&& exists|end: int| #[trigger]
                        local_part_ends(email@, end) && resp.user.name@ == email@.take(end)
                    &&& stored(
                        old(self)@,
                        SessionView { token: token@, name: resp.user.name@, email: email@ },
                        final(self)@,
                    )
                },
                Err(e) => blank(email@) && final(self)@ == old(self)@,
            },
    {
        if is_blank(email.as_str()) {
            return Err(AuthError::Unauthorized);
        }
        Ok(self.open(token, email))
    }

    /// Opens a session for the user with address `email` under a token
    /// drawn at random. A blank address is turned away and changes nothing.
    pub fn login(&mut self, email: String) -> (r: Result<LoginResp, AuthError>)
        requires
            old(self).wf(),
        ensures
            final(self).wf(),
            match r {
                Ok(resp) => {
                    &&& !blank(email@)
                    &&& resp.token@.len() == 36
                    &&& resp.user.email@ == email@
                    &&& exists|end: int| #[trigger]
                        local_part_ends(email@, end) && resp.user.name@ == email@.take(end)
                    &&& stored(
                        old(self)@,
                        SessionView { token: resp.token@, name: resp.user.name@, email: email@ },
                        final(self)@,
                    )
                },
                Err(e) => blank(email@) && final(self)@ == old(self)@,
            },
    {
        let token = random_token();
        self.login_as(token, email)
    }
}

/// `char::is_whitespace`: whether `c` has the Unicode property White_Space.
#[verifier::external_body]
fn is_white_space(c: char) -> (white: bool)
    ensures
        white == white_space(c),
{
    c.is_whitespace()
}

/// `String::from_iter` on the characters of `chars`: the string made of
/// them, in order.
#[verifier::external_body]
fn text_of(chars: Vec<char>) -> (text: String)
    ensures
        text@ == chars@,
{
    String::from_iter(chars)
}

/// `uuid::Uuid::new_v4` written out by its `to_string`: a random identifier
/// as text. The value is random; all that is claimed of it is the length
/// of the hyphenated form, 32 digits and 4 hyphens.
#[verifier::external_body]
fn random_token() -> (token: String)
    ensures
        token@.len() == 36,
{
    uuid::Uuid::new_v4().to_string()
}

} // verus!
