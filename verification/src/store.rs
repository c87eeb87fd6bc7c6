use vstd::prelude::*;

verus! {

/// One stored credential record: a name and the stored form of its secret.
#[derive(Debug, PartialEq)]
pub struct Credentials {
    pub name: Vec<u8>,
    pub hash: Vec<u8>,
}

/// The credential store's observable behavior, stated over a sequence of
/// (name, secret) entries. The session relies on exactly this interface:
/// an existence lookup, a registration that fails on a taken name, and an
/// authentication that fails on an unknown name or a wrong secret.
pub struct StoreModel {
    pub users: Vec<Credentials>,
}

impl View for StoreModel {
    type V = Seq<(Seq<u8>, Seq<u8>)>;

    open spec fn view(&self) -> Seq<(Seq<u8>, Seq<u8>)> {
        Seq::new(self.users@.len(), |i: int| (self.users@[i].name@, self.users@[i].hash@))
    }
}

pub open spec fn spec_exists(s: Seq<(Seq<u8>, Seq<u8>)>, name: Seq<u8>) -> bool {
    exists|i: int| 0 <= i < s.len() && (#[trigger] s[i]).0 == name
}

/// Registration: a taken name leaves the store unchanged and reports failure;
/// a fresh name is added with its secret.
pub open spec fn spec_register(s: Seq<(Seq<u8>, Seq<u8>)>, name: Seq<u8>, secret: Seq<u8>) -> (
    Seq<(Seq<u8>, Seq<u8>)>,
    bool,
) {
    if spec_exists(s, name) {
        (s, false)
    } else {
        (s.push((name, secret)), true)
    }
}

/// Authentication succeeds exactly for a registered name with its secret.
pub open spec fn spec_authenticate(
    s: Seq<(Seq<u8>, Seq<u8>)>,
    name: Seq<u8>,
    secret: Seq<u8>,
) -> bool {
    exists|i: int| 0 <= i < s.len() && (#[trigger] s[i]).0 == name && s[i].1 == secret
}

/// Registration exclusivity: when two registrations of the same name run one
/// after the other — which is all that can happen under the store's exclusive
/// guard — at most one of them reports success, whatever the secrets and
/// whatever the store already held.
pub proof fn lemma_register_exclusive(
    s: Seq<(Seq<u8>, Seq<u8>)>,
    name: Seq<u8>,
    p1: Seq<u8>,
    p2: Seq<u8>,
)
    ensures
        !(spec_register(s, name, p1).1 && spec_register(spec_register(s, name, p1).0, name, p2).1),
{
    if !spec_exists(s, name) {
        let s1 = s.push((name, p1));
        assert(s1[s.len() as int].0 == name);
        assert(spec_exists(s1, name));
    }
}

impl StoreModel {
    pub fn new() -> (r: Self)
        ensures
            r@ == Seq::<(Seq<u8>, Seq<u8>)>::empty(),
    {
        let r = StoreModel { users: Vec::new() };
        proof {
            assert(r@ =~= Seq::<(Seq<u8>, Seq<u8>)>::empty());
        }
        r
    }

    /// Whether a user of this name is registered.
    pub fn player_exists(&self, name: &[u8]) -> (r: bool)
        ensures
            r == spec_exists(self@, name@),
    {
        let mut i: usize = 0;
        while i < self.users.len()
            invariant
                i <= self.users@.len(),
                forall|j: int| 0 <= j < i ==> (#[trigger] self@[j]).0 != name@,
            decreases self.users@.len() - i,
        {
            if crate::session::bytes_eq(self.users[i].name.as_slice(), name) {
                proof {
                    assert(self@[i as int].0 == name@);
                }
                return true;
            }
            i = i + 1;
        }
        proof {
            assert(!spec_exists(self@, name@));
        }
        false
    }

    /// Registers a name with its secret; reports false when the name is
    /// already taken, leaving the store unchanged.
    pub fn register(&mut self, name: &[u8], secret: &[u8]) -> (r: bool)
        ensures
            (final(self)@, r) == spec_register(old(self)@, name@, secret@),
    {
        if self.player_exists(name) {
            return false;
        }
        let entry = Credentials {
            name: vstd::slice::slice_to_vec(name),
            hash: vstd::slice::slice_to_vec(secret),
        };
        self.users.push(entry);
        proof {
            assert(self@ =~= old(self)@.push((name@, secret@)));
        }
        true
    }

    /// Authenticates a name against its stored secret.
    pub fn authenticate(&self, name: &[u8], secret: &[u8]) -> (r: bool)
        ensures
            r == spec_authenticate(self@, name@, secret@),
    {
        let mut i: usize = 0;
        while i < self.users.len()
            invariant
                i <= self.users@.len(),
                forall|j: int|
                    0 <= j < i ==> !((#[trigger] self@[j]).0 == name@ && self@[j].1 == secret@),
            decreases self.users@.len() - i,
        {
            if crate::session::bytes_eq(self.users[i].name.as_slice(), name)
                && crate::session::bytes_eq(self.users[i].hash.as_slice(), secret) {
                proof {
                    assert(self@[i as int].0 == name@ && self@[i as int].1 == secret@);
                }
                return true;
            }
            i = i + 1;
        }
        proof {
            assert(!spec_authenticate(self@, name@, secret@));
        }
        false
    }
}

} // verus!
