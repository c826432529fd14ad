//! The credential store: API client identities with scope grants.
//!
//! A credential is issued with a tag and a space-separated list of scope
//! names; only names the store knows are granted, each at most once —
//! unknown names are silently skipped, insert-or-ignore fashion.  The
//! secret itself comes from an external cryptographic collaborator: the
//! store receives the freshly generated identifier, the secret to hand
//! back once, and its storage-safe encoded form, and never keeps the
//! plain secret.  A credential can be looked up by the authorization
//! gate, and revoked (hard-deleted); revoking an unknown identifier is an
//! error, not a no-op.

use vstd::prelude::*;
use vstd::string::*;

use crate::error::CredentialError;
use crate::text::{join_spaces, join_with_spaces, split_char, split_str, str_eq, str_views};

verus! {

/// One stored API client: identifier, encoded secret, label, and the
/// granted scopes in grant order.
#[derive(Debug)]
pub struct Credential {
    pub client_id: String,
    pub client_secret: String,
    pub tag: String,
    pub scopes: Vec<String>,
}

/// A credential as handed to a caller: the identifier, a secret, and the
/// space-joined scope set.
#[derive(Debug)]
pub struct Creds {
    pub client_id: String,
    pub client_secret: String,
    pub scope: String,
}

/// One row of the API user listing.
#[derive(Debug)]
pub struct UserList {
    pub tag: String,
    pub client_id: String,
    pub scope: String,
}

/// Whether `s` occurs among the character sequences `xs`.
pub open spec fn has_seq(xs: Seq<Seq<char>>, s: Seq<char>) -> bool {
    exists|i: int| 0 <= i < xs.len() && xs[i] == s
}

/// The scope names actually granted: the requested names in order, kept
/// only when known, each at most once.
pub open spec fn granted_from(
    parts: Seq<Seq<char>>,
    known: Seq<Seq<char>>,
    acc: Seq<Seq<char>>,
) -> Seq<Seq<char>>
    decreases parts.len(),
{
    if parts.len() == 0 {
        acc
    } else if has_seq(known, parts[0]) && !acc.contains(parts[0]) {
        granted_from(parts.skip(1), known, acc.push(parts[0]))
    } else {
        granted_from(parts.skip(1), known, acc)
    }
}

/// The grants a raw space-separated request yields against a known scope
/// list.
pub open spec fn granted(raw: Seq<char>, known: Seq<Seq<char>>) -> Seq<Seq<char>> {
    granted_from(split_char(raw, ' '), known, Seq::empty())
}

/// The first credential stored under `id`, if any.
pub open spec fn find_cred(creds: Seq<Credential>, id: Seq<char>) -> Option<Credential>
    decreases creds.len(),
{
    if creds.len() == 0 {
        None
    } else if creds[0].client_id@ == id {
        Some(creds[0])
    } else {
        find_cred(creds.skip(1), id)
    }
}

/// The store without the credential under `id`.
pub open spec fn remove_cred(creds: Seq<Credential>, id: Seq<char>) -> Seq<Credential>
    decreases creds.len(),
{
    if creds.len() == 0 {
        creds
    } else if creds[0].client_id@ == id {
        creds.skip(1)
    } else {
        seq![creds[0]] + remove_cred(creds.skip(1), id)
    }
}

proof fn lemma_find_cred_at(creds: Seq<Credential>, id: Seq<char>, i: int)
    requires
        0 <= i <= creds.len(),
        forall|k: int| 0 <= k < i ==> #[trigger] creds[k].client_id@ != id,
        i < creds.len() ==> creds[i].client_id@ == id,
    ensures
        find_cred(creds, id) == if i < creds.len() {
            Some(creds[i])
        } else {
            None::<Credential>
        },
    decreases creds.len(),
{
    if creds.len() > 0 && i > 0 {
        assert forall|k: int| 0 <= k < i - 1 implies #[trigger] creds.skip(1)[k].client_id@
            != id by {
            assert(creds.skip(1)[k] == creds[k + 1]);
        }
        assert(i - 1 < creds.skip(1).len() ==> creds.skip(1)[i - 1] == creds[i]);
        lemma_find_cred_at(creds.skip(1), id, i - 1);
    }
}

proof fn lemma_remove_cred_at(creds: Seq<Credential>, id: Seq<char>, i: int)
    requires
        0 <= i < creds.len(),
        forall|k: int| 0 <= k < i ==> #[trigger] creds[k].client_id@ != id,
        creds[i].client_id@ == id,
    ensures
        remove_cred(creds, id) == creds.remove(i),
    decreases creds.len(),
{
    if i == 0 {
        assert(remove_cred(creds, id) =~= creds.remove(0));
    } else {
        assert forall|k: int| 0 <= k < i - 1 implies #[trigger] creds.skip(1)[k].client_id@
            != id by {
            assert(creds.skip(1)[k] == creds[k + 1]);
        }
        assert(creds.skip(1)[i - 1] == creds[i]);
        lemma_remove_cred_at(creds.skip(1), id, i - 1);
        assert(seq![creds[0]] + creds.skip(1).remove(i - 1) =~= creds.remove(i));
    }
}

/// After a revocation the identifier resolves to nothing.
pub proof fn lemma_remove_cred_gone(creds: Seq<Credential>, id: Seq<char>)
    requires
        forall|i: int, j: int|
            0 <= i < j < creds.len() ==> #[trigger] creds[i].client_id@ != #[trigger] creds[j].client_id@,
    ensures
        find_cred(remove_cred(creds, id), id) is None,
    decreases creds.len(),
{
    if creds.len() > 0 {
        let t = creds.skip(1);
        assert forall|i: int, j: int| 0 <= i < j < t.len() implies #[trigger] t[i].client_id@
            != #[trigger] t[j].client_id@ by {
            assert(t[i] == creds[i + 1] && t[j] == creds[j + 1]);
        }
        if creds[0].client_id@ == id {
            lemma_find_cred_none_when_absent(t, id, creds[0]);
        } else {
            lemma_remove_cred_gone(t, id);
            let r = seq![creds[0]] + remove_cred(t, id);
            assert(r[0] == creds[0]);
            assert(r.skip(1) =~= remove_cred(t, id));
        }
    }
}

proof fn lemma_find_cred_none_when_absent(creds: Seq<Credential>, id: Seq<char>, c0: Credential)
    requires
        c0.client_id@ == id,
        forall|j: int| 0 <= j < creds.len() ==> c0.client_id@ != #[trigger] creds[j].client_id@,
    ensures
        find_cred(creds, id) is None,
    decreases creds.len(),
{
    if creds.len() > 0 {
        assert forall|j: int| 0 <= j < creds.skip(1).len() implies c0.client_id@
            != #[trigger] creds.skip(1)[j].client_id@ by {
            assert(creds.skip(1)[j] == creds[j + 1]);
        }
        lemma_find_cred_none_when_absent(creds.skip(1), id, c0);
    }
}

/// Revoking one identifier leaves every other identifier's resolution
/// unchanged.
pub proof fn lemma_remove_cred_other(creds: Seq<Credential>, id: Seq<char>, other: Seq<char>)
    requires
        other != id,
    ensures
        find_cred(remove_cred(creds, id), other) == find_cred(creds, other),
    decreases creds.len(),
{
    if creds.len() > 0 {
        if creds[0].client_id@ == id {
        } else {
            lemma_remove_cred_other(creds.skip(1), id, other);
            let r = seq![creds[0]] + remove_cred(creds.skip(1), id);
            assert(r[0] == creds[0]);
            assert(r.skip(1) =~= remove_cred(creds.skip(1), id));
        }
    }
}

/// Whether `s` occurs in `v`.
fn contains_str(v: &Vec<String>, s: &str) -> (r: bool)
    ensures
        r == has_seq(str_views(v@), s@),
{
    let mut i: usize = 0;
    while i < v.len()
        invariant
            i <= v.len(),
            forall|k: int| 0 <= k < i ==> str_views(v@)[k] != s@,
        decreases v.len() - i,
    {
        if str_eq(v[i].as_str(), s) {
            assert(str_views(v@)[i as int] == s@);
            return true;
        }
        i = i + 1;
    }
    false
}

/// Computes the granted scope names for a raw request.
fn compute_granted(raw: &str, known: &Vec<String>) -> (r: Vec<String>)
    ensures
        str_views(r@) == granted(raw@, str_views(known@)),
{
    let parts = split_str(raw, ' ');
    let ghost partsv = split_char(raw@, ' ');
    let mut acc: Vec<String> = Vec::new();
    let mut i: usize = 0;
    proof {
        assert(partsv.skip(0) =~= partsv);
        assert(str_views(acc@) =~= Seq::<Seq<char>>::empty());
    }
    while i < parts.len()
        invariant
            i <= parts.len(),
            parts@.len() == partsv.len(),
            forall|k: int| 0 <= k < partsv.len() ==> parts@[k]@ == partsv[k],
            granted(raw@, str_views(known@)) == granted_from(
                partsv.skip(i as int),
                str_views(known@),
                str_views(acc@),
            ),
        decreases parts.len() - i,
    {
        let ghost accv = str_views(acc@);
        let in_known = contains_str(known, parts[i].as_str());
        let in_acc = contains_str(&acc, parts[i].as_str());
        proof {
            assert(partsv.skip(i as int)[0] == partsv[i as int]);
            assert(partsv.skip(i as int).skip(1) =~= partsv.skip(i + 1));
            assert(has_seq(accv, partsv[i as int]) == accv.contains(partsv[i as int]));
        }
        if in_known && !in_acc {
            acc.push(parts[i].clone());
            proof {
                assert(str_views(acc@) =~= accv.push(partsv[i as int]));
            }
        }
        i = i + 1;
    }
    proof {
        assert(partsv.skip(parts@.len() as int).len() == 0);
    }
    acc
}

/// The credential subsystem: the known scope names, and the stored
/// credentials in issue order.
#[derive(Debug)]
pub struct CredentialStore {
    pub known_scopes: Vec<String>,
    pub creds: Vec<Credential>,
}

impl CredentialStore {
    /// Client identifiers are unique across the store.
    pub open spec fn inv(self) -> bool {
        forall|i: int, j: int|
            0 <= i < j < self.creds@.len() ==> #[trigger] self.creds@[i].client_id@
                != #[trigger] self.creds@[j].client_id@
    }

    /// The known scope names, as character sequences.
    pub open spec fn known(self) -> Seq<Seq<char>> {
        str_views(self.known_scopes@)
    }

    /// A store that knows the given scope names and holds no credentials.
    pub fn new(known_scopes: Vec<String>) -> (r: CredentialStore)
        ensures
            r.inv(),
            r.known_scopes == known_scopes,
            r.creds@.len() == 0,
    {
        CredentialStore { known_scopes, creds: Vec::new() }
    }

    /// Issues a credential: grants the known scopes among `scope_names`
    /// (space-separated, each at most once, unknown names skipped), stores
    /// the encoded secret, and returns the identifier, the plain secret —
    /// handed out only here — and the space-joined granted scopes.
    /// Fails, changing nothing, exactly when the identifier already
    /// exists.
    pub fn issue(
        &mut self,
        tag: String,
        scope_names: &str,
        client_id: String,
        client_secret: String,
        secret_encoded: String,
    ) -> (r: Result<Creds, CredentialError>)
        requires
            old(self).inv(),
        ensures
            final(self).inv(),
            final(self).known_scopes == old(self).known_scopes,
            match r {
                Ok(out) => {
                    &&& find_cred(old(self).creds@, client_id@) is None
                    &&& final(self).creds@.len() == old(self).creds@.len() + 1
                    &&& final(self).creds@.subrange(0, old(self).creds@.len() as int) == old(
                        self,
                    ).creds@
                    &&& final(self).creds@.last().client_id@ == client_id@
                    &&& final(self).creds@.last().client_secret@ == secret_encoded@
                    &&& final(self).creds@.last().tag@ == tag@
                    &&& str_views(final(self).creds@.last().scopes@) == granted(
                        scope_names@,
                        old(self).known(),
                    )
                    &&& out.client_id@ == client_id@
                    &&& out.client_secret@ == client_secret@
                    &&& out.scope@ == join_spaces(granted(scope_names@, old(self).known()))
                },
                Err(e) => {
                    &&& e == CredentialError::DuplicateClientId
                    &&& find_cred(old(self).creds@, client_id@) is Some
                    &&& *final(self) == *old(self)
                },
            },
    {
        if self.find_index(client_id.as_str()).is_some() {
            return Err(CredentialError::DuplicateClientId);
        }
        let scopes = compute_granted(scope_names, &self.known_scopes);
        let scope = join_with_spaces(&scopes);
        let ghost c0 = self.creds@;
        let cred = Credential {
            client_id: client_id.clone(),
            client_secret: secret_encoded,
            tag,
            scopes,
        };
        self.creds.push(cred);
        proof {
            assert(self.creds@.subrange(0, c0.len() as int) =~= c0);
            assert forall|i: int, j: int| 0 <= i < j < self.creds@.len() implies
                #[trigger] self.creds@[i].client_id@ != #[trigger] self.creds@[j].client_id@ by {
                if j < c0.len() {
                    assert(self.creds@[i] == c0[i] && self.creds@[j] == c0[j]);
                } else {
                    assert(self.creds@[i] == c0[i]);
                    lemma_find_cred_at_gives_match(c0, client_id@, i);
                }
            }
        }
        Ok(Creds { client_id, client_secret, scope })
    }

    /// The position of the credential under `client_id`, if any.
    fn find_index(&self, client_id: &str) -> (r: Option<usize>)
        ensures
            match r {
                Some(i) => i < self.creds@.len() && find_cred(self.creds@, client_id@) == Some(
                    self.creds@[i as int],
                ) && self.creds@[i as int].client_id@ == client_id@,
                None => find_cred(self.creds@, client_id@) is None,
            },
    {
        let mut i: usize = 0;
        while i < self.creds.len()
            invariant
                i <= self.creds@.len(),
                forall|k: int| 0 <= k < i ==> #[trigger] self.creds@[k].client_id@ != client_id@,
            decreases self.creds@.len() - i,
        {
            if str_eq(self.creds[i].client_id.as_str(), client_id) {
                proof {
                    lemma_find_cred_at(self.creds@, client_id@, i as int);
                }
                return Some(i);
            }
            i = i + 1;
        }
        proof {
            lemma_find_cred_at(self.creds@, client_id@, i as int);
        }
        None
    }

    /// Resolves an identifier for the authorization gate: the identifier,
    /// the stored (encoded) secret, and the space-joined scope set.  An
    /// unknown identifier — or a credential holding no scopes at all —
    /// resolves to `NotFound`.
    pub fn lookup(&self, client_id: &str) -> (r: Result<Creds, CredentialError>)
        ensures
            match r {
                Ok(out) => match find_cred(self.creds@, client_id@) {
                    Some(c) => {
                        &&& c.scopes@.len() > 0
                        &&& out.client_id@ == c.client_id@
                        &&& out.client_secret@ == c.client_secret@
                        &&& out.scope@ == join_spaces(str_views(c.scopes@))
                    },
                    None => false,
                },
                Err(e) => e == CredentialError::NotFound && match find_cred(
                    self.creds@,
                    client_id@,
                ) {
                    Some(c) => c.scopes@.len() == 0,
                    None => true,
                },
            },
    {
        match self.find_index(client_id) {
            Some(i) => {
                if self.creds[i].scopes.len() == 0 {
                    return Err(CredentialError::NotFound);
                }
                let c = &self.creds[i];
                Ok(
                    Creds {
                        client_id: c.client_id.clone(),
                        client_secret: c.client_secret.clone(),
                        scope: join_with_spaces(&c.scopes),
                    },
                )
            },
            None => Err(CredentialError::NotFound),
        }
    }

    /// Hard-deletes the credential under `client_id`, scope grants
    /// included.  Fails, changing nothing, exactly when no credential
    /// matches.
    pub fn revoke(&mut self, client_id: &str) -> (r: Result<(), CredentialError>)
        requires
            old(self).inv(),
        ensures
            final(self).inv(),
            final(self).known_scopes == old(self).known_scopes,
            match r {
                Ok(()) => {
                    &&& find_cred(old(self).creds@, client_id@) is Some
                    &&& final(self).creds@ == remove_cred(old(self).creds@, client_id@)
                },
                Err(e) => {
                    &&& e == CredentialError::NotFound
                    &&& find_cred(old(self).creds@, client_id@) is None
                    &&& *final(self) == *old(self)
                },
            },
    {
        match self.find_index(client_id) {
            Some(i) => {
                let ghost c0 = self.creds@;
                self.creds.remove(i);
                proof {
                    lemma_remove_cred_at(c0, client_id@, i as int);
                    assert forall|a: int, b: int| 0 <= a < b < self.creds@.len() implies
                        #[trigger] self.creds@[a].client_id@
                        != #[trigger] self.creds@[b].client_id@ by {
                        let a0: int = if a < i {
                            a
                        } else {
                            a + 1
                        };
                        let b0: int = if b < i {
                            b
                        } else {
                            b + 1
                        };
                        assert(self.creds@[a] == c0[a0] && self.creds@[b] == c0[b0]);
                    }
                }
                Ok(())
            },
            None => Err(CredentialError::NotFound),
        }
    }

    /// Lists the API users that hold at least one scope: tag, identifier
    /// and space-joined scopes of each, in issue order.
    pub fn list(&self) -> (r: Vec<UserList>)
        ensures
            ({
                let kept = self.creds@.filter(|c: Credential| c.scopes@.len() > 0);
                &&& r@.len() == kept.len()
                &&& forall|k: int|
                    0 <= k < kept.len() ==> (#[trigger] r@[k]).tag@ == kept[k].tag@ && r@[k].client_id@
                        == kept[k].client_id@ && r@[k].scope@ == join_spaces(
                        str_views(kept[k].scopes@),
                    )
            }),
    {
        let ghost pred = |c: Credential| c.scopes@.len() > 0;
        let mut r: Vec<UserList> = Vec::new();
        let mut i: usize = 0;
        proof {
            reveal(Seq::filter);
            assert(self.creds@.take(0) =~= Seq::<Credential>::empty());
        }
        while i < self.creds.len()
            invariant
                i <= self.creds@.len(),
                pred == (|c: Credential| c.scopes@.len() > 0),
                ({
                    let kept = self.creds@.take(i as int).filter(pred);
                    &&& r@.len() == kept.len()
                    &&& forall|k: int|
                        0 <= k < kept.len() ==> (#[trigger] r@[k]).tag@ == kept[k].tag@
                            && r@[k].client_id@ == kept[k].client_id@ && r@[k].scope@ == join_spaces(
                            str_views(kept[k].scopes@),
                        )
                }),
            decreases self.creds@.len() - i,
        {
            let ghost prefix = self.creds@.take(i as int);
            proof {
                assert(self.creds@.take(i + 1) =~= prefix.push(self.creds@[i as int]));
                assert(self.creds@.take(i + 1).drop_last() =~= prefix);
                assert(self.creds@.take(i + 1).last() == self.creds@[i as int]);
                reveal(Seq::filter);
            }
            let c = &self.creds[i];
            if c.scopes.len() > 0 {
                r.push(
                    UserList {
                        tag: c.tag.clone(),
                        client_id: c.client_id.clone(),
                        scope: join_with_spaces(&c.scopes),
                    },
                );
            }
            i = i + 1;
        }
        proof {
            assert(self.creds@.take(self.creds@.len() as int) =~= self.creds@);
        }
        r
    }
}

proof fn lemma_find_cred_at_gives_match(creds: Seq<Credential>, id: Seq<char>, i: int)
    requires
        0 <= i < creds.len(),
        find_cred(creds, id) is None,
    ensures
        creds[i].client_id@ != id,
    decreases i,
{
    if i > 0 {
        assert(creds.skip(1)[i - 1] == creds[i]);
        lemma_find_cred_at_gives_match(creds.skip(1), id, i - 1);
    }
}

} // verus!
