//! The identity registry: at most one profile for each identity.
use vstd::prelude::*;
use crate::identity::Identity;

verus! {

/// The profile of one identity.
#[derive(Debug, Clone, PartialEq, Eq)]
pub struct UserProfile {
    pub identity: Identity,
    pub username: String,
}

/// The mathematical value of a [`UserProfile`].
pub ghost struct ProfileView {
    pub identity: Seq<u8>,
    pub username: Seq<char>,
}

impl View for UserProfile {
    type V = ProfileView;

    open spec fn view(&self) -> ProfileView {
        ProfileView { identity: self.identity@, username: self.username@ }
    }
}

/// Some profile of `profiles` belongs to `who`.
spec fn enrolled(profiles: Seq<UserProfile>, who: Seq<u8>) -> bool {
    exists|k: int| 0 <= k < profiles.len() && (#[trigger] profiles[k]).identity@ == who
}

/// A place at which `profiles` holds the profile of `who`.
spec fn place_of(profiles: Seq<UserProfile>, who: Seq<u8>) -> int {
    choose|k: int| 0 <= k < profiles.len() && (#[trigger] profiles[k]).identity@ == who
}

/// The registry of user profiles.
pub struct IdentityRegistry {
    profiles: Vec<UserProfile>,
}

impl View for IdentityRegistry {
    type V = Map<Seq<u8>, Seq<char>>;

    /// The user name of each registered identity.
    closed spec fn view(&self) -> Map<Seq<u8>, Seq<char>> {
        Map::new(
            |who: Seq<u8>| enrolled(self.profiles@, who),
            |who: Seq<u8>| self.profiles@[place_of(self.profiles@, who)].username@,
        )
    }
}

impl IdentityRegistry {
    /// The registry is valid: no identity has two profiles.
    pub closed spec fn wf(&self) -> bool {
        forall|k: int, l: int|
            0 <= k < l < self.profiles@.len() ==> (#[trigger] self.profiles@[k]).identity@ != (
            #[trigger] self.profiles@[l]).identity@
    }

    /// An empty registry.
    pub fn new() -> (registry: IdentityRegistry)
        ensures
            registry.wf(),
            registry@ == Map::<Seq<u8>, Seq<char>>::empty(),
    {
        let registry = IdentityRegistry { profiles: Vec::new() };
        assert(registry@ =~= Map::<Seq<u8>, Seq<char>>::empty());
        registry
    }

    /// The number of profiles.
    pub fn len(&self) -> (n: usize)
        requires
            self.wf(),
        ensures
            n == self@.dom().len(),
            self@.dom().finite(),
    {
        proof {
            self.lemma_count(self.profiles@.len() as int);
            assert(self.profiles@.subrange(0, self.profiles@.len() as int) =~= self.profiles@);
            assert(self.enrolled_before(self.profiles@.len() as int) =~= self@.dom());
        }
        self.profiles.len()
    }

    /// The identities of the first `n` profiles.
    spec fn enrolled_before(&self, n: int) -> Set<Seq<u8>> {
        Set::new(|who: Seq<u8>| enrolled(self.profiles@.subrange(0, n), who))
    }

    /// The first `n` profiles belong to `n` identities.
    proof fn lemma_count(&self, n: int)
        requires
            self.wf(),
            0 <= n <= self.profiles@.len(),
        ensures
            self.enrolled_before(n).finite(),
            self.enrolled_before(n).len() == n,
        decreases n,
    {
        if n == 0 {
            assert(self.enrolled_before(0) =~= Set::<Seq<u8>>::empty());
        } else {
            self.lemma_count(n - 1);
            let who = self.profiles@[n - 1].identity@;
            let front = self.profiles@.subrange(0, n - 1);
            let upto = self.profiles@.subrange(0, n);
            assert forall|w: Seq<u8>| enrolled(upto, w) <==> (enrolled(front, w) || w == who) by {
                if enrolled(upto, w) {
                    let k = place_of(upto, w);
                    if k < n - 1 {
                        assert(front[k].identity@ == w);
                    }
                }
                if enrolled(front, w) {
                    let k = place_of(front, w);
                    assert(upto[k].identity@ == w);
                }
                if w == who {
                    assert(upto[n - 1].identity@ == w);
                }
            }
            assert(!enrolled(front, who)) by {
                if enrolled(front, who) {
                    let k = place_of(front, who);
                    assert(self.profiles@[k].identity@ == self.profiles@[n - 1].identity@);
                }
            }
            assert(self.enrolled_before(n) =~= self.enrolled_before(n - 1).insert(who));
        }
    }

    /// The place of the profile of `who`.
    fn find(&self, who: &Identity) -> (at: Option<usize>)
        ensures
            match at {
                Some(k) => k < self.profiles@.len() && self.profiles@[k as int].identity@ == who@,
                None => !enrolled(self.profiles@, who@),
            },
    {
        let mut k: usize = 0;
        while k < self.profiles.len()
            invariant
                k <= self.profiles.len(),
                forall|l: int| 0 <= l < k ==> (#[trigger] self.profiles@[l]).identity@ != who@,
            decreases self.profiles.len() - k,
        {
            if self.profiles[k].identity.same(who) {
                return Some(k);
            }
            k += 1;
        }
        None
    }

    /// Copies of all profiles, one for each registered identity.
    pub fn profiles(&self) -> (all: Vec<UserProfile>)
        requires
            self.wf(),
        ensures
            all@.len() == self@.dom().len(),
            forall|k: int|
                0 <= k < all@.len() ==> self@.contains_key((#[trigger] all@[k]).identity@)
                    && self@[all@[k].identity@] == all@[k].username@,
            forall|who: Seq<u8>|
                self@.contains_key(who) ==> exists|k: int|
                    0 <= k < all@.len() && (#[trigger] all@[k]).identity@ == who,
    {
        let mut all: Vec<UserProfile> = Vec::new();
        let mut i: usize = 0;
        while i < self.profiles.len()
            invariant
                i <= self.profiles.len(),
                all@.len() == i,
                forall|k: int|
                    0 <= k < i ==> (#[trigger] all@[k])@ == self.profiles@[k]@,
            decreases self.profiles.len() - i,
        {
            all.push(
                UserProfile {
                    identity: self.profiles[i].identity.duplicate(),
                    username: self.profiles[i].username.clone(),
                },
            );
            i += 1;
        }
        proof {
            self.lemma_count(self.profiles@.len() as int);
            assert(self.profiles@.subrange(0, self.profiles@.len() as int) =~= self.profiles@);
            assert(self.enrolled_before(self.profiles@.len() as int) =~= self@.dom());
            assert forall|k: int| 0 <= k < all@.len() implies self@.contains_key(
                (#[trigger] all@[k]).identity@,
            ) && self@[all@[k].identity@] == all@[k].username@ by {
                let who = all@[k].identity@;
                assert(self.profiles@[k].identity@ == who);
                assert(place_of(self.profiles@, who) == k);
            }
            assert forall|who: Seq<u8>| self@.contains_key(who) implies exists|k: int|
                0 <= k < all@.len() && (#[trigger] all@[k]).identity@ == who by {
                let k = place_of(self.profiles@, who);
                assert(all@[k]@ == self.profiles@[k]@);
                assert(all@[k].identity@ == who);
            }
        }
        all
    }

    /// Gives `identity` the user name `username`, in place of any it had,
    /// and hands the stored name back.
    pub fn register(&mut self, identity: Identity, username: String) -> (stored: String)
        requires
            old(self).wf(),
        ensures
            final(self).wf(),
            final(self)@ == old(self)@.insert(identity@, username@),
            stored@ == username@,
    {
        let stored = username.clone();
        let ghost before = self.profiles@;
        let ghost who = identity@;
        let at = self.find(&identity);
        let ghost spot: int = match at {
            Some(k) => k as int,
            None => before.len() as int,
        };
        match at {
            Some(k) => {
                self.profiles.set(k, UserProfile { identity, username });
            },
            None => {
                self.profiles.push(UserProfile { identity, username });
            },
        }
        proof {
            let after = self.profiles@;
            assert(after[spot].identity@ == who);
            assert forall|w: Seq<u8>| enrolled(after, w) <==> (enrolled(before, w) || w == who) by {
                if enrolled(after, w) && w != who {
                    let k = place_of(after, w);
                    assert(before[k].identity@ == w);
                }
                if enrolled(before, w) {
                    let k = place_of(before, w);
                    assert(after[k].identity@ == w);
                }
            }
            assert forall|w: Seq<u8>| enrolled(after, w) implies after[place_of(after, w)].username@
                == (if w == who {
                stored@
            } else {
                before[place_of(before, w)].username@
            }) by {
                let k = place_of(after, w);
                if w == who {
                    assert(k == spot);
                } else {
                    assert(before[k].identity@ == w);
                    assert(place_of(before, w) == k);
                }
            }
            assert(self@ =~= old(self)@.insert(who, stored@));
        }
        stored
    }

    /// A copy of the profile of `identity`, if it has one.
    pub fn lookup(&self, identity: &Identity) -> (found: Option<UserProfile>)
        requires
            self.wf(),
        ensures
            match found {
                Some(profile) => self@.contains_key(identity@) && profile@ == (ProfileView {
                    identity: identity@,
                    username: self@[identity@],
                }),
                None => !self@.contains_key(identity@),
            },
    {
        match self.find(identity) {
            Some(k) => {
                assert(self.profiles@[k as int].identity@ == identity@);
                assert(place_of(self.profiles@, identity@) == k);
                Some(
                    UserProfile {
                        identity: self.profiles[k].identity.duplicate(),
                        username: self.profiles[k].username.clone(),
                    },
                )
            },
            None => None,
        }
    }
}

} // verus!
