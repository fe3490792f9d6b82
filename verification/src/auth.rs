//! The identity directory: credential checks and identity-by-id lookups over
//! an immutable, in-memory set of credential records.

use std::collections::HashMap;
use vstd::hash_map::StringHashMap;
use vstd::prelude::*;

verus! {

broadcast use vstd::std_specs::hash::group_hash_axioms;

/// An authenticated identity, as handed to callers: no password in it.
#[derive(Debug)]
pub struct User {
    pub username: String,
    pub user_id: usize,
    pub can_post: bool,
}

/// The mathematical value of a [`User`].
pub struct UserView {
    pub username: Seq<char>,
    pub user_id: usize,
    pub can_post: bool,
}

impl View for User {
    type V = UserView;

    open spec fn view(&self) -> UserView {
        UserView { username: self.username@, user_id: self.user_id, can_post: self.can_post }
    }
}

impl Clone for User {
    fn clone(&self) -> (res: User)
        ensures
            res@ == self@,
    {
        User {
            username: self.username.clone(),
            user_id: self.user_id,
            can_post: self.can_post,
        }
    }
}

/// The mathematical value of one credential record of the directory.
pub struct Credential {
    pub username: Seq<char>,
    pub password: Seq<char>,
    pub user_id: usize,
    pub can_post: bool,
}

impl Credential {
    /// The identity that this record stands for, the password left out.
    pub open spec fn user(self) -> UserView {
        UserView { username: self.username, user_id: self.user_id, can_post: self.can_post }
    }
}

/// A credential record. It is owned by the directory and never leaves it.
#[derive(Debug)]
pub struct Meta {
    username: String,
    password: String,
    user_id: usize,
    can_post: bool,
}

impl View for Meta {
    type V = Credential;

    closed spec fn view(&self) -> Credential {
        Credential {
            username: self.username@,
            password: self.password@,
            user_id: self.user_id,
            can_post: self.can_post,
        }
    }
}

impl Meta {
    /// The identity of this record, without its password.
    pub fn to_user(&self) -> (user: User)
        ensures
            user@ == self@.user(),
    {
        User {
            username: self.username.clone(),
            can_post: self.can_post,
            user_id: self.user_id,
        }
    }
}

/// A directory is consistent when each record is filed under its own id and
/// no two records share a username.
pub open spec fn directory_ok(m: Map<usize, Credential>) -> bool {
    &&& forall|id: usize| m.contains_key(id) ==> (#[trigger] m[id]).user_id == id
    &&& forall|a: usize, b: usize|
        m.contains_key(a) && m.contains_key(b) && #[trigger] m[a].username
            == #[trigger] m[b].username ==> a == b
}

/// The record filed under `id` carries exactly this username and password.
pub open spec fn matches_login(
    m: Map<usize, Credential>,
    username: Seq<char>,
    password: Seq<char>,
    id: usize,
) -> bool {
    m.contains_key(id) && m[id].username == username && m[id].password == password
}

/// What a credential check answers: the identity of a record that carries
/// both the username and the password, or nothing.
pub open spec fn login_result(
    m: Map<usize, Credential>,
    username: Seq<char>,
    password: Seq<char>,
) -> Option<UserView> {
    if exists|id: usize| matches_login(m, username, password, id) {
        Some(m[choose|id: usize| matches_login(m, username, password, id)].user())
    } else {
        None
    }
}

/// What session resolution answers: the identity filed under the token, or
/// nothing where there is no token or no such record.
pub open spec fn session_result(m: Map<usize, Credential>, token: Option<usize>) -> Option<
    UserView,
> {
    match token {
        Some(id) => if m.contains_key(id) {
            Some(m[id].user())
        } else {
            None
        },
        None => None,
    }
}

/// The identity directory: usernames to ids, and ids to credential records.
pub struct AuthCtl {
    username2id: StringHashMap<usize>,
    user_ids: HashMap<usize, Meta>,
}

impl View for AuthCtl {
    type V = Map<usize, Credential>;

    closed spec fn view(&self) -> Map<usize, Credential> {
        Map::new(|id: usize| self.user_ids@.contains_key(id), |id: usize| self.user_ids@[id]@)
    }
}

impl AuthCtl {
    /// The two mappings agree: every record is filed under its own id and
    /// indexed by its username, and the username index holds nothing else.
    pub closed spec fn wf(&self) -> bool {
        &&& forall|id: usize| #[trigger]
            self.user_ids@.contains_key(id) ==> {
                &&& self.user_ids@[id].user_id == id
                &&& self.username2id@.contains_key(self.user_ids@[id].username@)
                &&& self.username2id@[self.user_ids@[id].username@] == id
            }
        &&& forall|name: Seq<char>| #[trigger]
            self.username2id@.contains_key(name) ==> {
                &&& self.user_ids@.contains_key(self.username2id@[name])
                &&& self.user_ids@[self.username2id@[name]].username@ == name
            }
    }

    /// A well-formed directory is consistent: ids and usernames are unique.
    pub proof fn lemma_directory_ok(&self)
        requires
            self.wf(),
        ensures
            directory_ok(self@),
    {
    }

    /// Checks a username and password against the directory. An unknown
    /// username and a wrong password give the same error.
    pub fn check_password(&self, username: &str, password: &str) -> (r: Result<
        User,
        &'static str,
    >)
        requires
            self.wf(),
        ensures
            match r {
                Ok(user) => login_result(self@, username@, password@) == Some(user@),
                Err(msg) => login_result(self@, username@, password@) is None && msg@
                    == "invalid username/password"@,
            },
    {
        let user_id = match self.username2id.get(username) {
            None => {
                return Err("invalid username/password");
            },
            Some(user_id) => user_id,
        };
        let meta = match self.user_ids.get(user_id) {
            None => {
                return Err("invalid username/password");
            },
            Some(meta) => meta,
        };
        let given = password.to_owned();
        if meta.password == given {
            let user = meta.to_user();
            proof {
                assert(matches_login(self@, username@, password@, *user_id));
            }
            Ok(user)
        } else {
            Err("invalid username/password")
        }
    }

    /// Looks an identity up by its id.
    pub fn check_user_id(&self, user_id: &usize) -> (r: Option<User>)
        requires
            self.wf(),
        ensures
            match r {
                Some(user) => session_result(self@, Some(*user_id)) == Some(user@),
                None => session_result(self@, Some(*user_id)) is None,
            },
    {
        match self.user_ids.get(user_id) {
            None => None,
            Some(meta) => Some(meta.to_user()),
        }
    }

    /// Resolves a session token to an identity. Without a token the answer is
    /// `None` at once, and the directory is not looked at.
    pub fn authenticate(&self, session_token: Option<usize>) -> (r: Option<User>)
        requires
            self.wf(),
        ensures
            session_token is None ==> r is None,
            match r {
                Some(user) => session_result(self@, session_token) == Some(user@),
                None => session_result(self@, session_token) is None,
            },
    {
        match session_token {
            None => None,
            Some(user_id) => self.check_user_id(&user_id),
        }
    }
}

/// Builds the directory. The credential source is not read: the directory
/// holds the single built-in account.
pub fn init(_auth_path: &str) -> (a: AuthCtl)
    ensures
        a.wf(),
        a@ == Map::<usize, Credential>::empty().insert(
            2,
            Credential {
                username: "zbr"@,
                password: "password"@,
                user_id: 2,
                can_post: true,
            },
        ),
{
    let mut a = AuthCtl { username2id: StringHashMap::new(), user_ids: HashMap::new() };
    let x = Meta {
        username: "zbr".to_owned(),
        password: "password".to_owned(),
        user_id: 2,
        can_post: true,
    };
    a.username2id.insert(x.username.clone(), x.user_id);
    a.user_ids.insert(x.user_id, x);
    proof {
        assert(a@ =~= Map::<usize, Credential>::empty().insert(
            2,
            Credential {
                username: "zbr"@,
                password: "password"@,
                user_id: 2,
                can_post: true,
            },
        ));
    }
    a
}

/// In a consistent directory, the username and password of any record log
/// in as that record's identity, under that record's id.
pub proof fn lemma_login_of_record(m: Map<usize, Credential>, id: usize)
    requires
        directory_ok(m),
        m.contains_key(id),
    ensures
        login_result(m, m[id].username, m[id].password) == Some(m[id].user()),
        m[id].user().user_id == id,
{
    assert(matches_login(m, m[id].username, m[id].password, id));
}

/// A pair of username and password that no record carries logs nobody in,
/// whether the username is unknown or only the password is wrong.
pub proof fn lemma_login_refused(
    m: Map<usize, Credential>,
    username: Seq<char>,
    password: Seq<char>,
)
    requires
        forall|id: usize|
            m.contains_key(id) ==> !((#[trigger] m[id]).username == username && m[id].password
                == password),
    ensures
        login_result(m, username, password) is None,
{
}

/// In a consistent directory, a session token resolves to an identity exactly
/// when it is the id of a record, and that identity is the one that logging
/// in with the record's own credentials gives.
pub proof fn lemma_session_agrees_with_login(m: Map<usize, Credential>, id: usize)
    requires
        directory_ok(m),
    ensures
        session_result(m, Some(id)) is Some <==> m.contains_key(id),
        m.contains_key(id) ==> session_result(m, Some(id)) == login_result(
            m,
            m[id].username,
            m[id].password,
        ),
        session_result(m, None) is None,
{
    if m.contains_key(id) {
        lemma_login_of_record(m, id);
    }
}

} // verus!
