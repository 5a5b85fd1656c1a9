//! The account operations behind the web handlers: registration, login and
//! flag submission. Each one decides and commits with the store borrowed
//! exclusively, so no other request can come between its checks and its
//! update.

use vstd::prelude::*;
use vstd::string::StringSliceAdditionalSpecFns;
use crate::auth::{blake3_hex, get_auth_key, password_digest, AUTH_SECRET};
use crate::challenge::{find_challenge, has_id_at, position_before, ChallengeCategory};
use crate::order::compare_keys;
use crate::record::{contains_id, copy_ids, UserView};
use crate::store::{with_solve, DB};

verus! {

/// Why a registration was refused.
#[derive(Debug, Clone, Copy, PartialEq, Eq, Structural)]
pub enum RegisterRejection {
    EmptyField,
    UsernameTaken,
    PasswordMismatch,
    PasswordLength,
}

impl RegisterRejection {
    pub fn reason(&self) -> (r: &'static str)
        ensures
            r@ == register_reason(*self),
    {
        match self {
            RegisterRejection::EmptyField => "Fields must not be empty",
            RegisterRejection::UsernameTaken => "Username already registered",
            RegisterRejection::PasswordMismatch => "Passwords do not match",
            RegisterRejection::PasswordLength => "Password length should be in the range: 4-64",
        }
    }
}

pub open spec fn register_reason(e: RegisterRejection) -> Seq<char> {
    match e {
        RegisterRejection::EmptyField => "Fields must not be empty"@,
        RegisterRejection::UsernameTaken => "Username already registered"@,
        RegisterRejection::PasswordMismatch => "Passwords do not match"@,
        RegisterRejection::PasswordLength => "Password length should be in the range: 4-64"@,
    }
}

/// The answer to a registration: the checks in this order, the password
/// length counted in bytes.
pub open spec fn register_outcome(
    taken: bool,
    username: Seq<char>,
    email: Seq<char>,
    password: &str,
    confirm: Seq<char>,
) -> Result<(), RegisterRejection> {
    if username.len() == 0 || password@.len() == 0 || email.len() == 0 {
        Err(RegisterRejection::EmptyField)
    } else if taken {
        Err(RegisterRejection::UsernameTaken)
    } else if password@ != confirm {
        Err(RegisterRejection::PasswordMismatch)
    } else if password.spec_bytes().len() < 4 || password.spec_bytes().len() > 64 {
        Err(RegisterRejection::PasswordLength)
    } else {
        Ok(())
    }
}

/// Registers a new user, whose password is stored as its digest.
///
/// One rule serves both the JSON API and the HTML forms: an empty user
/// name, password or e-mail address is refused first, before the name is
/// looked up, so a taken name sent with an empty field is answered as an
/// empty field. The store itself takes any key; keeping keys non-empty is
/// this function's job.
pub fn register_user(store: &mut DB, username: String, email: String, password: &str, confirm: &str) -> (r: Result<(), RegisterRejection>)
    requires
        old(store).wf(),
    ensures
        final(store).wf(),
        final(store).view_text() == old(store).view_text(),
        r == register_outcome(old(store).records_view().contains_key(username@), username@, email@, password, confirm@),
        r is Err ==> final(store).records_view() == old(store).records_view() && final(store).ranking() == old(store).ranking(),
        r is Ok ==> final(store).records_view() == old(store).records_view().insert(
            username@,
            UserView { id: 0, username: username@, email: email@, password: blake3_hex(password@), score: 0, solves: Seq::empty() },
        ),
        r is Ok ==> final(store).ranking().to_set() == old(store).ranking().to_set().insert((username@, 0u32)),
{
    if username.as_str().is_empty() || password.is_empty() || email.as_str().is_empty() {
        return Err(RegisterRejection::EmptyField);
    }
    if store.get(username.as_str()).is_some() {
        return Err(RegisterRejection::UsernameTaken);
    }
    match compare_keys(password, confirm) {
        core::cmp::Ordering::Equal => {},
        _ => {
            return Err(RegisterRejection::PasswordMismatch);
        },
    }
    let n = password.as_bytes().len();
    if n < 4 || n > 64 {
        return Err(RegisterRejection::PasswordLength);
    }
    let digest = password_digest(password);
    match store.register(username, email, digest) {
        Ok(()) => Ok(()),
        Err(_) => Err(RegisterRejection::UsernameTaken),
    }
}

/// Why a login was refused.
#[derive(Debug, Clone, Copy, PartialEq, Eq, Structural)]
pub enum LoginRejection {
    UserNotFound,
    WrongPassword,
}

impl LoginRejection {
    pub fn reason(&self) -> (r: &'static str)
        ensures
            r@ == login_reason(*self),
    {
        match self {
            LoginRejection::UserNotFound => "User not found",
            LoginRejection::WrongPassword => "Wrong password",
        }
    }
}

pub open spec fn login_reason(e: LoginRejection) -> Seq<char> {
    match e {
        LoginRejection::UserNotFound => "User not found"@,
        LoginRejection::WrongPassword => "Wrong password"@,
    }
}

/// What a successful login hands back.
pub struct LoginGrant {
    pub auth_key: String,
    pub solves: Vec<u16>,
}

/// Checks a password against the stored digest; on success returns the
/// user's authentication key and solved challenges.
pub fn login(store: &DB, username: &str, password: &str) -> (r: Result<LoginGrant, LoginRejection>)
    requires
        store.wf(),
    ensures
        !store.records_view().contains_key(username@) ==> r == Err::<LoginGrant, LoginRejection>(LoginRejection::UserNotFound),
        store.records_view().contains_key(username@) ==> {
            let u = store.records_view()[username@];
            if blake3_hex(password@) != u.password {
                r == Err::<LoginGrant, LoginRejection>(LoginRejection::WrongPassword)
            } else {
                (r matches Ok(g) && g.auth_key@ == blake3_hex(AUTH_SECRET@ + u.password) && g.solves@ == u.solves)
            }
        },
{
    let user = match store.get(username) {
        Some(u) => u,
        None => {
            return Err(LoginRejection::UserNotFound);
        },
    };
    let digest = password_digest(password);
    if digest != user.password {
        return Err(LoginRejection::WrongPassword);
    }
    Ok(LoginGrant { auth_key: get_auth_key(user.password.as_str()), solves: copy_ids(&user.solves) })
}

/// Why a flag submission was refused.
#[derive(Debug, Clone, Copy, PartialEq, Eq, Structural)]
pub enum SubmitRejection {
    NotLoggedIn,
    UnknownUser,
    AuthFailed,
    AlreadySolved,
    WrongFlag,
    NoSuchChallenge,
    ScoreOverflow,
}

impl SubmitRejection {
    pub fn reason(&self) -> (r: &'static str)
        ensures
            r@ == submit_reason(*self),
    {
        match self {
            SubmitRejection::NotLoggedIn => "You need to be logged in to submit flags",
            SubmitRejection::UnknownUser => "User does not exist",
            SubmitRejection::AuthFailed => "Authentication failed",
            SubmitRejection::AlreadySolved => "You have already solved this challenge",
            SubmitRejection::WrongFlag => "Wrong flag",
            SubmitRejection::NoSuchChallenge => "Challenge doesnt exist",
            SubmitRejection::ScoreOverflow => "Score out of range",
        }
    }
}

pub open spec fn submit_reason(e: SubmitRejection) -> Seq<char> {
    match e {
        SubmitRejection::NotLoggedIn => "You need to be logged in to submit flags"@,
        SubmitRejection::UnknownUser => "User does not exist"@,
        SubmitRejection::AuthFailed => "Authentication failed"@,
        SubmitRejection::AlreadySolved => "You have already solved this challenge"@,
        SubmitRejection::WrongFlag => "Wrong flag"@,
        SubmitRejection::NoSuchChallenge => "Challenge doesnt exist"@,
        SubmitRejection::ScoreOverflow => "Score out of range"@,
    }
}

/// The checks made before the challenge is looked up, in this order.
pub open spec fn submit_precheck(
    m: Map<Seq<char>, UserView>,
    username: Seq<char>,
    auth_key: Seq<char>,
    id: u16,
) -> Option<SubmitRejection> {
    if username.len() == 0 || auth_key.len() == 0 {
        Some(SubmitRejection::NotLoggedIn)
    } else if !m.contains_key(username) {
        Some(SubmitRejection::UnknownUser)
    } else if blake3_hex(AUTH_SECRET@ + m[username].password) != auth_key {
        Some(SubmitRejection::AuthFailed)
    } else if m[username].solves.contains(id) {
        Some(SubmitRejection::AlreadySolved)
    } else {
        None
    }
}

/// Whether challenge `j` of category `c` is the first with identifier `id`.
pub open spec fn first_with_id(cats: Seq<ChallengeCategory>, c: int, j: int, id: u16) -> bool {
    &&& has_id_at(cats, c, j, id)
    &&& forall|c2: int, j2: int| #[trigger] has_id_at(cats, c2, j2, id) ==> !position_before(c2, j2, c, j)
}

/// Submits `flag` for challenge `id` on behalf of `username`, who proves
/// to be logged in with `auth_key`. An accepted flag adds the challenge's
/// points and marks it solved, in the record and the rank index together;
/// the ranking view is left for `DB::refresh_view`.
pub fn submit_flag(
    store: &mut DB,
    cats: &Vec<ChallengeCategory>,
    username: &str,
    auth_key: &str,
    id: u16,
    flag: &str,
) -> (r: Result<(), SubmitRejection>)
    requires
        old(store).wf(),
    ensures
        final(store).wf(),
        final(store).view_text() == old(store).view_text(),
        r is Err ==> final(store).records_view() == old(store).records_view() && final(store).ranking() == old(store).ranking(),
        submit_precheck(old(store).records_view(), username@, auth_key@, id) matches Some(e) ==> r == Err::<(), SubmitRejection>(e),
        submit_precheck(old(store).records_view(), username@, auth_key@, id) is None ==> {
            &&& (forall|c: int, j: int| !#[trigger] has_id_at(cats@, c, j, id))
                ==> r == Err::<(), SubmitRejection>(SubmitRejection::NoSuchChallenge)
            &&& forall|c: int, j: int| #[trigger] first_with_id(cats@, c, j, id) ==> {
                let ch = cats@[c].challenges@[j];
                let u = old(store).records_view()[username@];
                if ch.flag@ != flag@ {
                    r == Err::<(), SubmitRejection>(SubmitRejection::WrongFlag)
                } else if u.score + ch.points > u32::MAX {
                    r == Err::<(), SubmitRejection>(SubmitRejection::ScoreOverflow)
                } else {
                    &&& r is Ok
                    &&& final(store).records_view() == with_solve(old(store).records_view(), username@, id, ch.points)
                    &&& final(store).ranking().to_set() == old(store).ranking().to_set().filter(
                        |x: (Seq<char>, u32)| x.0 != username@,
                    ).insert((username@, (u.score + ch.points) as u32))
                }
            }
        },
{
    if username.is_empty() || auth_key.is_empty() {
        return Err(SubmitRejection::NotLoggedIn);
    }
    let user = match store.get(username) {
        Some(u) => u,
        None => {
            return Err(SubmitRejection::UnknownUser);
        },
    };
    let expected = get_auth_key(user.password.as_str());
    match compare_keys(expected.as_str(), auth_key) {
        core::cmp::Ordering::Equal => {},
        _ => {
            return Err(SubmitRejection::AuthFailed);
        },
    }
    if contains_id(&user.solves, id) {
        return Err(SubmitRejection::AlreadySolved);
    }
    let (c, j) = match find_challenge(cats, id) {
        Some(pos) => pos,
        None => {
            return Err(SubmitRejection::NoSuchChallenge);
        },
    };
    let ch = &cats[c].challenges[j];
    proof {
        assert(first_with_id(cats@, c as int, j as int, id));
        assert forall|c2: int, j2: int| #[trigger] first_with_id(cats@, c2, j2, id) implies c2 == c && j2 == j by {
            assert(!position_before(c2, j2, c as int, j as int));
            assert(!position_before(c as int, j as int, c2, j2));
        };
    }
    match compare_keys(ch.flag.as_str(), flag) {
        core::cmp::Ordering::Equal => {},
        _ => {
            return Err(SubmitRejection::WrongFlag);
        },
    }
    match store.apply_score_delta(username, id, ch.points) {
        Ok(()) => Ok(()),
        Err(_) => Err(SubmitRejection::ScoreOverflow),
    }
}

} // verus!
