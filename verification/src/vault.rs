use vstd::prelude::*;
use vstd::slice::slice_index_get;
use vstd::utf8::encode_utf8;

use crate::encryption::{decrypt, encrypt, open_envelope, KEY_SIZE, MAX_PLAINTEXT_LEN, NONCE_SIZE};
use crate::error::VaultError;
use crate::keys::{KeySource, MasterKey};

verus! {

/// The mathematical content of one stored secret version.
pub ghost struct EntryView {
    /// The envelope bytes: nonce, ciphertext and tag.
    pub env: Seq<u8>,
    /// The version number, strictly increasing within one history.
    pub version: u32,
    /// Creation time, in milliseconds since the Unix epoch.
    pub created_at: i64,
}

/// One stored version of a secret: the encrypted envelope, its version
/// number, and its creation time. Immutable once created — a write never
/// changes an entry, it appends a new one.
#[derive(Debug, Clone)]
pub struct SecretEntry {
    /// The envelope bytes: nonce, ciphertext and tag.
    pub encrypted_value: Vec<u8>,
    /// The version number, strictly increasing within one history.
    pub version: u32,
    /// Creation time, in milliseconds since the Unix epoch.
    pub created_at: i64,
}

impl View for SecretEntry {
    type V = EntryView;

    open spec fn view(&self) -> EntryView {
        EntryView {
            env: self.encrypted_value@,
            version: self.version,
            created_at: self.created_at,
        }
    }
}

/// The views of a sequence of stored entries.
pub open spec fn history_view(entries: Seq<SecretEntry>) -> Seq<EntryView> {
    entries.map_values(|e: SecretEntry| e@)
}

/// The append-only version history of one named secret.
#[derive(Debug, Clone)]
pub struct NamedHistory {
    /// The secret's name.
    pub name: String,
    /// Its versions, in creation order; never empty.
    pub entries: Vec<SecretEntry>,
}

/// The whole stored state: every secret name with its version history.
/// Names are unique; a name with no entries does not appear at all.
#[derive(Debug, Clone)]
pub struct VaultData {
    /// The histories, one per secret name.
    pub secrets: Vec<NamedHistory>,
}

/// The mapping a sequence of named histories holds, later names winning;
/// with distinct names, each history stands under its own name.
pub open spec fn vault_map_of(pairs: Seq<NamedHistory>) -> Map<Seq<char>, Seq<EntryView>>
    decreases pairs.len(),
{
    if pairs.len() == 0 {
        Map::empty()
    } else {
        vault_map_of(pairs.drop_last()).insert(
            pairs.last().name@,
            history_view(pairs.last().entries@),
        )
    }
}

/// No two histories share a name.
pub open spec fn distinct_names(pairs: Seq<NamedHistory>) -> bool {
    forall|i: int, j: int|
        0 <= i < j < pairs.len() ==> pairs[i].name@ != pairs[j].name@
}

/// A well-formed history: non-empty, versions at least 1 and strictly
/// increasing in creation order.
pub open spec fn history_wf(h: Seq<EntryView>) -> bool {
    &&& h.len() > 0
    &&& forall|i: int| 0 <= i < h.len() ==> (#[trigger] h[i].version) >= 1
    &&& forall|i: int| 0 <= i < h.len() - 1 ==> (#[trigger] h[i].version) < h[i + 1].version
}

impl View for VaultData {
    type V = Map<Seq<char>, Seq<EntryView>>;

    open spec fn view(&self) -> Map<Seq<char>, Seq<EntryView>> {
        vault_map_of(self.secrets@)
    }
}

/// Well-formed histories: unique valid names and well-formed version
/// sequences.
pub open spec fn pairs_wf(pairs: Seq<NamedHistory>) -> bool {
    &&& distinct_names(pairs)
    &&& forall|i: int|
        0 <= i < pairs.len() ==> valid_secret_name((#[trigger] pairs[i]).name@)
    &&& forall|i: int|
        0 <= i < pairs.len() ==> history_wf(history_view((#[trigger] pairs[i]).entries@))
}

impl VaultData {
    /// Well-formed stored state: unique valid names and well-formed
    /// histories.
    pub open spec fn wf(&self) -> bool {
        pairs_wf(self.secrets@)
    }
}

/// Removing a history keeps the state well formed.
proof fn lemma_pairs_wf_remove(pairs: Seq<NamedHistory>, i: int)
    requires
        pairs_wf(pairs),
        0 <= i < pairs.len(),
    ensures
        pairs_wf(pairs.remove(i)),
{
    let rem = pairs.remove(i);
    assert forall|a: int| 0 <= a < rem.len() implies valid_secret_name(
        (#[trigger] rem[a]).name@,
    ) && history_wf(history_view(rem[a].entries@)) by {
        assert(rem[a] == if a < i {
            pairs[a]
        } else {
            pairs[a + 1]
        });
    }
    assert forall|a: int, b: int| 0 <= a < b < rem.len() implies (#[trigger] rem[a]).name@ != (
    #[trigger] rem[b]).name@ by {
        assert(rem[a] == if a < i {
            pairs[a]
        } else {
            pairs[a + 1]
        });
        assert(rem[b] == if b < i {
            pairs[b]
        } else {
            pairs[b + 1]
        });
    }
}

/// Replacing the history at one index, keeping its name, keeps the state
/// well formed as long as the new history is.
proof fn lemma_pairs_wf_update(pairs: Seq<NamedHistory>, i: int, p: NamedHistory)
    requires
        pairs_wf(pairs),
        0 <= i < pairs.len(),
        p.name@ == pairs[i].name@,
        history_wf(history_view(p.entries@)),
    ensures
        pairs_wf(pairs.update(i, p)),
{
    let upd = pairs.update(i, p);
    assert forall|a: int| 0 <= a < upd.len() implies valid_secret_name(
        (#[trigger] upd[a]).name@,
    ) && history_wf(history_view(upd[a].entries@)) by {
        if a != i {
            assert(upd[a] == pairs[a]);
        } else {
            assert(upd[a] == p);
            assert(valid_secret_name(pairs[i].name@));
        }
    }
    assert forall|a: int, b: int| 0 <= a < b < upd.len() implies (#[trigger] upd[a]).name@ != (
    #[trigger] upd[b]).name@ by {
        assert((if a == i {
            p
        } else {
            upd[a]
        }).name@ == pairs[a].name@);
        assert((if b == i {
            p
        } else {
            upd[b]
        }).name@ == pairs[b].name@);
    }
}

/// Appending a history with a fresh valid name keeps the state well
/// formed as long as the new history is.
proof fn lemma_pairs_wf_push(pairs: Seq<NamedHistory>, p: NamedHistory)
    requires
        pairs_wf(pairs),
        valid_secret_name(p.name@),
        history_wf(history_view(p.entries@)),
        forall|a: int| 0 <= a < pairs.len() ==> (#[trigger] pairs[a]).name@ != p.name@,
    ensures
        pairs_wf(pairs.push(p)),
{
    let ext = pairs.push(p);
    assert forall|a: int| 0 <= a < ext.len() implies valid_secret_name(
        (#[trigger] ext[a]).name@,
    ) && history_wf(history_view(ext[a].entries@)) by {
        if a < pairs.len() {
            assert(ext[a] == pairs[a]);
        } else {
            assert(ext[a] == p);
        }
    }
    assert forall|a: int, b: int| 0 <= a < b < ext.len() implies (#[trigger] ext[a]).name@ != (
    #[trigger] ext[b]).name@ by {
        if b < pairs.len() {
            assert(ext[a] == pairs[a] && ext[b] == pairs[b]);
        } else {
            assert(ext[b] == p);
            assert(ext[a] == pairs[a]);
        }
    }
}

impl Default for VaultData {
    /// An empty vault: no names, no histories.
    fn default() -> (r: Self)
        ensures
            r.secrets@.len() == 0,
            r@ == Map::<Seq<char>, Seq<EntryView>>::empty(),
            r.wf(),
    {
        VaultData { secrets: Vec::new() }
    }
}

/// A name is in the mapping exactly when some history carries it.
pub proof fn lemma_vault_map_contains(pairs: Seq<NamedHistory>, n: Seq<char>)
    ensures
        vault_map_of(pairs).contains_key(n) <==> exists|i: int|
            0 <= i < pairs.len() && (#[trigger] pairs[i]).name@ == n,
    decreases pairs.len(),
{
    if pairs.len() > 0 {
        lemma_vault_map_contains(pairs.drop_last(), n);
        if pairs.last().name@ == n {
            assert(pairs[pairs.len() - 1].name@ == n);
        } else {
            if exists|i: int| 0 <= i < pairs.len() && (#[trigger] pairs[i]).name@ == n {
                let i = choose|i: int| 0 <= i < pairs.len() && (#[trigger] pairs[i]).name@ == n;
                assert(pairs.drop_last()[i].name@ == n);
            }
            if exists|i: int|
                0 <= i < pairs.drop_last().len() && (#[trigger] pairs.drop_last()[i]).name@ == n {
                let i = choose|i: int|
                    0 <= i < pairs.drop_last().len() && (#[trigger] pairs.drop_last()[i]).name@
                        == n;
                assert(pairs[i].name@ == n);
            }
        }
    }
}

/// With distinct names, the mapping sends each history's name to that
/// history's entries.
pub proof fn lemma_vault_map_index(pairs: Seq<NamedHistory>, i: int)
    requires
        distinct_names(pairs),
        0 <= i < pairs.len(),
    ensures
        vault_map_of(pairs).contains_key(pairs[i].name@),
        vault_map_of(pairs)[pairs[i].name@] == history_view(pairs[i].entries@),
    decreases pairs.len(),
{
    if i < pairs.len() - 1 {
        assert(distinct_names(pairs.drop_last()));
        lemma_vault_map_index(pairs.drop_last(), i);
        assert(pairs.drop_last()[i] == pairs[i]);
        assert(pairs.last().name@ != pairs[i].name@);
    }
}

/// Replacing the history at one index, keeping its name, updates the
/// mapping at that name alone.
pub proof fn lemma_vault_map_update(pairs: Seq<NamedHistory>, i: int, p: NamedHistory)
    requires
        distinct_names(pairs),
        0 <= i < pairs.len(),
        p.name@ == pairs[i].name@,
    ensures
        vault_map_of(pairs.update(i, p)) == vault_map_of(pairs).insert(
            p.name@,
            history_view(p.entries@),
        ),
    decreases pairs.len(),
{
    let upd = pairs.update(i, p);
    if i == pairs.len() - 1 {
        assert(upd.drop_last() =~= pairs.drop_last());
        assert(upd.last() == p);
        assert(vault_map_of(upd) =~= vault_map_of(pairs).insert(
            p.name@,
            history_view(p.entries@),
        ));
    } else {
        assert(distinct_names(pairs.drop_last()));
        assert(pairs.drop_last()[i] == pairs[i]);
        lemma_vault_map_update(pairs.drop_last(), i, p);
        assert(upd.drop_last() =~= pairs.drop_last().update(i, p));
        assert(upd.last() == pairs.last());
        assert(pairs.last().name@ != p.name@);
        assert(vault_map_of(upd) =~= vault_map_of(pairs).insert(
            p.name@,
            history_view(p.entries@),
        ));
    }
}

/// Appending a history whose name is new extends the mapping at that name.
pub proof fn lemma_vault_map_push(pairs: Seq<NamedHistory>, p: NamedHistory)
    ensures
        vault_map_of(pairs.push(p)) == vault_map_of(pairs).insert(
            p.name@,
            history_view(p.entries@),
        ),
{
    assert(pairs.push(p).drop_last() =~= pairs);
    assert(pairs.push(p).last() == p);
}

/// With distinct names, removing the history at one index removes its name
/// from the mapping, and nothing else.
pub proof fn lemma_vault_map_remove(pairs: Seq<NamedHistory>, i: int)
    requires
        distinct_names(pairs),
        0 <= i < pairs.len(),
    ensures
        vault_map_of(pairs.remove(i)) == vault_map_of(pairs).remove(pairs[i].name@),
    decreases pairs.len(),
{
    let rem = pairs.remove(i);
    if i == pairs.len() - 1 {
        assert(rem =~= pairs.drop_last());
        lemma_vault_map_contains(pairs.drop_last(), pairs[i].name@);
        assert(!vault_map_of(pairs.drop_last()).contains_key(pairs[i].name@)) by {
            if exists|j: int|
                0 <= j < pairs.drop_last().len() && (#[trigger] pairs.drop_last()[j]).name@
                    == pairs[i].name@ {
                let j = choose|j: int|
                    0 <= j < pairs.drop_last().len() && (#[trigger] pairs.drop_last()[j]).name@
                        == pairs[i].name@;
                assert(pairs[j].name@ == pairs[i].name@);
            }
        }
        assert(vault_map_of(rem) =~= vault_map_of(pairs).remove(pairs[i].name@));
    } else {
        assert(distinct_names(pairs.drop_last()));
        assert(pairs.drop_last()[i] == pairs[i]);
        lemma_vault_map_remove(pairs.drop_last(), i);
        assert(rem.drop_last() =~= pairs.drop_last().remove(i));
        assert(rem.last() == pairs.last());
        assert(pairs.last().name@ != pairs[i].name@);
        assert(vault_map_of(rem) =~= vault_map_of(pairs).remove(pairs[i].name@));
    }
}

/// The longest secret name the store accepts, in bytes.
pub const MAX_SECRET_NAME_LEN: usize = 256;

/// A valid secret name: non-empty, at most 256 bytes once UTF-8 encoded,
/// and free of NUL bytes.
#[verifier::opaque]
pub open spec fn valid_secret_name(name: Seq<char>) -> bool {
    let bytes = encode_utf8(name);
    &&& 0 < bytes.len() <= MAX_SECRET_NAME_LEN
    &&& forall|i: int| 0 <= i < bytes.len() ==> bytes[i] != 0
}

/// Validates a secret name: non-empty, at most 256 bytes, no NUL byte.
pub fn validate_secret_key(key: &str) -> (r: Result<(), VaultError>)
    ensures
        r is Ok <==> valid_secret_name(key@),
        r is Err ==> r matches Err(VaultError::InvalidSecretKey(_)),
{
    proof {
        reveal(valid_secret_name);
    }
    let bytes = key.as_bytes();
    if bytes.len() == 0 {
        return Err(VaultError::InvalidSecretKey("secret name cannot be empty".to_owned()));
    }
    if bytes.len() > MAX_SECRET_NAME_LEN {
        return Err(VaultError::InvalidSecretKey("secret name is too long".to_owned()));
    }
    let mut i: usize = 0;
    while i < bytes.len()
        invariant
            i <= bytes@.len(),
            bytes@ == encode_utf8(key@),
            0 < bytes@.len() <= MAX_SECRET_NAME_LEN,
            forall|j: int| 0 <= j < i ==> bytes@[j] != 0,
        decreases bytes@.len() - i,
    {
        proof {
            reveal(valid_secret_name);
        }
        if *slice_index_get(bytes, i) == 0 {
            return Err(
                VaultError::InvalidSecretKey("secret name cannot contain NUL bytes".to_owned()),
            );
        }
        i = i + 1;
    }
    proof {
        reveal(valid_secret_name);
    }
    Ok(())
}

/// Relies on `chrono::Utc::now` and `DateTime::timestamp_millis` for the
/// wall-clock time in milliseconds since the Unix epoch. Nothing is
/// promised of the value.
#[verifier::external_body]
fn now_millis() -> i64 {
    chrono::Utc::now().timestamp_millis()
}

/// Checks that a stored history is well formed: non-empty, versions at
/// least 1 and strictly increasing.
fn check_history(entries: &Vec<SecretEntry>) -> (b: bool)
    ensures
        b == history_wf(history_view(entries@)),
{
    let n = entries.len();
    if n == 0 {
        return false;
    }
    let mut i: usize = 0;
    while i < n
        invariant
            n == entries@.len(),
            i <= n,
            forall|a: int| 0 <= a < i ==> (#[trigger] entries@[a]).version >= 1,
            forall|a: int| 0 <= a < i - 1 ==> (#[trigger] entries@[a]).version < entries@[a
                + 1].version,
        decreases n - i,
    {
        if entries[i].version < 1 {
            assert(history_view(entries@)[i as int].version == entries@[i as int].version);
            return false;
        }
        if i > 0 {
            if entries[i - 1].version >= entries[i].version {
                assert(history_view(entries@)[i - 1].version == entries@[i - 1].version);
                assert(history_view(entries@)[i as int].version == entries@[i as int].version);
                return false;
            }
        }
        i = i + 1;
    }
    proof {
        assert(forall|a: int|
            0 <= a < entries@.len() ==> (#[trigger] history_view(entries@)[a]).version
                == entries@[a].version);
    }
    true
}

impl VaultData {
    /// Checks well-formedness of stored state: unique valid names and
    /// well-formed histories.
    pub fn check_wf(&self) -> (b: bool)
        ensures
            b == self.wf(),
    {
        let n = self.secrets.len();
        let mut i: usize = 0;
        while i < n
            invariant
                n == self.secrets@.len(),
                i <= n,
                forall|a: int, b2: int|
                    0 <= a < b2 < i ==> (#[trigger] self.secrets@[a]).name@ != (
                    #[trigger] self.secrets@[b2]).name@,
                forall|a: int|
                    0 <= a < i ==> valid_secret_name((#[trigger] self.secrets@[a]).name@),
                forall|a: int|
                    0 <= a < i ==> history_wf(
                        history_view((#[trigger] self.secrets@[a]).entries@),
                    ),
            decreases n - i,
        {
            if validate_secret_key(self.secrets[i].name.as_str()).is_err() {
                return false;
            }
            if !check_history(&self.secrets[i].entries) {
                return false;
            }
            let mut j: usize = 0;
            while j < i
                invariant
                    n == self.secrets@.len(),
                    j <= i < n,
                    forall|a: int|
                        0 <= a < j ==> (#[trigger] self.secrets@[a]).name@ != self.secrets@[
                            i as int].name@,
                decreases i - j,
            {
                if self.secrets[j].name == self.secrets[i].name {
                    return false;
                }
                j = j + 1;
            }
            i = i + 1;
        }
        true
    }
}

/// The history a mapping holds under a name: empty when the name is absent.
pub open spec fn stored_history(m: Map<Seq<char>, Seq<EntryView>>, n: Seq<char>) -> Seq<
    EntryView,
> {
    if m.contains_key(n) {
        m[n]
    } else {
        Seq::empty()
    }
}

/// The version the next entry appended to a history carries: one more than
/// the last, or 1 for an empty history.
pub open spec fn next_version(h: Seq<EntryView>) -> int {
    if h.len() == 0 {
        1
    } else {
        h.last().version + 1
    }
}

/// The version numbers of a history, in creation order.
pub open spec fn versions_of(h: Seq<EntryView>) -> Seq<u32> {
    h.map_values(|e: EntryView| e.version)
}

/// The first entry of a history carrying a version number, if any.
pub open spec fn version_entry(h: Seq<EntryView>, v: u32) -> Option<EntryView>
    decreases h.len(),
{
    if h.len() == 0 {
        None
    } else if h.first().version == v {
        Some(h.first())
    } else {
        version_entry(h.drop_first(), v)
    }
}

/// In a history whose every entry carries the successor of its
/// predecessor's version, starting at 1, the entry at index `i` carries
/// version `i + 1`.
proof fn lemma_version_at(h: Seq<EntryView>, i: int)
    requires
        forall|t: int|
            0 <= t < h.len() ==> (#[trigger] h[t]).version == (if t == 0 {
                1int
            } else {
                h[t - 1].version + 1int
            }),
        0 <= i < h.len(),
    ensures
        h[i].version == i + 1,
    decreases i,
{
    if i > 0 {
        lemma_version_at(h, i - 1);
    }
}

/// Version monotonicity: a history that grew from empty by appends, each
/// entry carrying the next version for its prefix — exactly what
/// [`SecretVault::set`] ensures — holds the versions 1, 2, ..., n in order.
pub proof fn lemma_version_monotonicity(h: Seq<EntryView>)
    requires
        forall|i: int|
            0 <= i < h.len() ==> (#[trigger] h[i]).version == next_version(h.take(i)),
    ensures
        versions_of(h) =~= Seq::new(h.len(), |i: int| (i + 1) as u32),
{
    assert forall|t: int| 0 <= t < h.len() implies (#[trigger] h[t]).version == (if t == 0 {
        1int
    } else {
        h[t - 1].version + 1int
    }) by {
        assert(h[t].version == next_version(h.take(t)));
        assert(h.take(t).len() == t);
        if t > 0 {
            assert(h.take(t).last() == h[t - 1]);
        }
    }
    assert forall|i: int| 0 <= i < h.len() implies versions_of(h)[i] == (i + 1) as u32 by {
        lemma_version_at(h, i);
    }
}

/// An entry a rotation can re-encrypt: its envelope opens under the key
/// and the plaintext is short enough to seal again.
pub open spec fn entry_rotatable(key: Seq<u8>, e: EntryView) -> bool {
    &&& open_envelope(key, e.env) is Some
    &&& open_envelope(key, e.env).unwrap().len() <= MAX_PLAINTEXT_LEN
}

/// Every stored entry can be re-encrypted under a new key.
pub open spec fn all_rotatable(key: Seq<u8>, m: Map<Seq<char>, Seq<EntryView>>) -> bool {
    forall|n: Seq<char>, j: int|
        #![trigger m[n][j]]
        m.contains_key(n) && 0 <= j < m[n].len() ==> entry_rotatable(key, m[n][j])
}

/// What a successful rotation leaves: the same names, versions and
/// creation times, and every envelope now opening under the new key to
/// exactly what the old envelope opened to under the old key.
pub open spec fn rotated_to(
    old_key: Seq<u8>,
    old_m: Map<Seq<char>, Seq<EntryView>>,
    new_key: Seq<u8>,
    new_m: Map<Seq<char>, Seq<EntryView>>,
) -> bool {
    &&& forall|n: Seq<char>| #[trigger] old_m.contains_key(n) ==> new_m.contains_key(n)
    &&& forall|n: Seq<char>| #[trigger] new_m.contains_key(n) ==> old_m.contains_key(n)
    &&& forall|n: Seq<char>| #[trigger] old_m.contains_key(n) ==> new_m[n].len() == old_m[n].len()
    &&& forall|n: Seq<char>, j: int|
        #![trigger old_m[n][j]]
        old_m.contains_key(n) && 0 <= j < old_m[n].len() ==> (new_m[n][j].version
            == old_m[n][j].version && new_m[n][j].created_at == old_m[n][j].created_at
            && open_envelope(new_key, new_m[n][j].env) == open_envelope(old_key, old_m[n][j].env))
}

/// The shape two history sequences share after a rotation: equal names,
/// lengths, versions and creation times, and envelopes that open under
/// the new key to what the old ones opened to under the old key.
pub open spec fn pairs_rotated(
    old_pairs: Seq<NamedHistory>,
    new_pairs: Seq<NamedHistory>,
    old_key: Seq<u8>,
    new_key: Seq<u8>,
) -> bool {
    &&& new_pairs.len() == old_pairs.len()
    &&& forall|k: int|
        0 <= k < old_pairs.len() ==> (#[trigger] new_pairs[k]).name@ == old_pairs[k].name@
    &&& forall|k: int|
        0 <= k < old_pairs.len() ==> (#[trigger] new_pairs[k]).entries@.len()
            == old_pairs[k].entries@.len()
    &&& forall|k: int, t: int|
        #![trigger history_view(new_pairs[k].entries@)[t]]
        0 <= k < old_pairs.len() && 0 <= t < old_pairs[k].entries@.len() ==> ({
            let ne = history_view(new_pairs[k].entries@)[t];
            let oe = history_view(old_pairs[k].entries@)[t];
            &&& ne.version == oe.version
            &&& ne.created_at == oe.created_at
            &&& open_envelope(new_key, ne.env) == open_envelope(old_key, oe.env)
            &&& entry_rotatable(old_key, oe)
        })
}

/// Rotated histories keep the state well formed.
proof fn lemma_pairs_wf_rotated(
    old_pairs: Seq<NamedHistory>,
    new_pairs: Seq<NamedHistory>,
    old_key: Seq<u8>,
    new_key: Seq<u8>,
)
    requires
        pairs_wf(old_pairs),
        pairs_rotated(old_pairs, new_pairs, old_key, new_key),
    ensures
        pairs_wf(new_pairs),
{
    assert forall|a: int, b: int| 0 <= a < b < new_pairs.len() implies (
    #[trigger] new_pairs[a]).name@ != (#[trigger] new_pairs[b]).name@ by {
        assert(old_pairs[a].name@ != old_pairs[b].name@);
    }
    assert forall|k: int| 0 <= k < new_pairs.len() implies valid_secret_name(
        (#[trigger] new_pairs[k]).name@,
    ) && history_wf(history_view(new_pairs[k].entries@)) by {
        let nh = history_view(new_pairs[k].entries@);
        let oh = history_view(old_pairs[k].entries@);
        assert(valid_secret_name(old_pairs[k].name@));
        assert(history_wf(oh));
        assert forall|t: int| 0 <= t < nh.len() implies (#[trigger] nh[t]).version
            == oh[t].version by {
            assert(history_view(new_pairs[k].entries@)[t].version == history_view(
                old_pairs[k].entries@,
            )[t].version);
        }
        assert(history_wf(nh));
    }
}

/// Rotated histories, as mappings, stand in the [`rotated_to`] relation,
/// and every old entry was rotatable.
proof fn lemma_rotated_pairs_to_maps(
    old_pairs: Seq<NamedHistory>,
    new_pairs: Seq<NamedHistory>,
    old_key: Seq<u8>,
    new_key: Seq<u8>,
)
    requires
        distinct_names(old_pairs),
        distinct_names(new_pairs),
        pairs_rotated(old_pairs, new_pairs, old_key, new_key),
    ensures
        rotated_to(old_key, vault_map_of(old_pairs), new_key, vault_map_of(new_pairs)),
        all_rotatable(old_key, vault_map_of(old_pairs)),
{
    let old_m = vault_map_of(old_pairs);
    let new_m = vault_map_of(new_pairs);
    assert forall|n: Seq<char>| #[trigger] old_m.contains_key(n) implies new_m.contains_key(n)
        && new_m[n].len() == old_m[n].len() by {
        lemma_vault_map_contains(old_pairs, n);
        let k = choose|k: int|
            0 <= k < old_pairs.len() && (#[trigger] old_pairs[k]).name@ == n;
        lemma_vault_map_index(old_pairs, k);
        assert(new_pairs[k].name@ == n);
        lemma_vault_map_index(new_pairs, k);
    }
    assert forall|n: Seq<char>| #[trigger] new_m.contains_key(n) implies old_m.contains_key(
        n,
    ) by {
        lemma_vault_map_contains(new_pairs, n);
        let k = choose|k: int|
            0 <= k < new_pairs.len() && (#[trigger] new_pairs[k]).name@ == n;
        lemma_vault_map_index(old_pairs, k);
    }
    assert forall|n: Seq<char>, j: int|
        #![trigger old_m[n][j]]
        old_m.contains_key(n) && 0 <= j < old_m[n].len() implies (new_m[n][j].version
        == old_m[n][j].version && new_m[n][j].created_at == old_m[n][j].created_at
        && open_envelope(new_key, new_m[n][j].env) == open_envelope(old_key, old_m[n][j].env)
        && entry_rotatable(old_key, old_m[n][j])) by {
        lemma_vault_map_contains(old_pairs, n);
        let k = choose|k: int|
            0 <= k < old_pairs.len() && (#[trigger] old_pairs[k]).name@ == n;
        lemma_vault_map_index(old_pairs, k);
        assert(new_pairs[k].name@ == n);
        lemma_vault_map_index(new_pairs, k);
        assert(history_view(new_pairs[k].entries@)[j].version == history_view(
            old_pairs[k].entries@,
        )[j].version);
    }
}

/// Builder for creating a vault: collects the key source and the paths
/// that a caller resolves when it loads the key and the stored state.
pub struct VaultBuilder {
    /// Where the master key comes from.
    pub master_key: Option<KeySource>,
    /// The vault file path.
    pub vault_path: Option<String>,
    /// The audit log file path, if any.
    pub audit_path: Option<String>,
}

impl VaultBuilder {
    /// Creates a new vault builder with nothing set.
    pub fn new() -> (r: Self)
        ensures
            r.master_key is None,
            r.vault_path is None,
            r.audit_path is None,
    {
        VaultBuilder { master_key: None, vault_path: None, audit_path: None }
    }

    /// Sets the master key source.
    pub fn master_key(self, key_source: KeySource) -> (r: Self)
        ensures
            r.master_key == Some(key_source),
            r.vault_path == self.vault_path,
            r.audit_path == self.audit_path,
    {
        VaultBuilder { master_key: Some(key_source), ..self }
    }

    /// Sets the vault file path.
    pub fn vault_path(self, path: &str) -> (r: Self)
        ensures
            r.vault_path matches Some(p) && p@ == path@,
            r.master_key == self.master_key,
            r.audit_path == self.audit_path,
    {
        VaultBuilder { vault_path: Some(path.to_owned()), ..self }
    }

    /// Sets the audit log file path.
    pub fn audit_path(self, path: &str) -> (r: Self)
        ensures
            r.audit_path matches Some(p) && p@ == path@,
            r.master_key == self.master_key,
            r.vault_path == self.vault_path,
    {
        VaultBuilder { audit_path: Some(path.to_owned()), ..self }
    }
}

impl Default for VaultBuilder {
    /// The same empty builder [`VaultBuilder::new`] returns.
    fn default() -> (r: Self)
        ensures
            r.master_key is None,
            r.vault_path is None,
            r.audit_path is None,
    {
        VaultBuilder::new()
    }
}

/// A secure vault for storing encrypted secrets with versioning support.
/// All state lives in memory; callers persist [`SecretVault::data`] after
/// every mutation and load it back at construction.
pub struct SecretVault {
    master_key: MasterKey,
    data: VaultData,
}

impl SecretVault {
    /// The master key bytes the vault currently encrypts under.
    pub closed spec fn key(&self) -> Seq<u8> {
        self.master_key@
    }

    /// The stored mapping from secret name to version history.
    pub closed spec fn secrets(&self) -> Map<Seq<char>, Seq<EntryView>> {
        self.data@
    }

    /// A well-formed vault: a 32-byte master key and well-formed data.
    pub closed spec fn wf(&self) -> bool {
        &&& self.master_key@.len() == KEY_SIZE
        &&& self.data.wf()
    }

    /// Creates a new vault builder.
    pub fn builder() -> (r: VaultBuilder)
        ensures
            r.master_key is None,
            r.vault_path is None,
            r.audit_path is None,
    {
        VaultBuilder::new()
    }

    /// Creates a vault over already-loaded state, refusing a wiped key or
    /// malformed data.
    pub fn new(master_key: MasterKey, data: VaultData) -> (r: Result<SecretVault, VaultError>)
        ensures
            r is Ok <==> (master_key@.len() == KEY_SIZE && data.wf()),
            r is Ok ==> r.unwrap().wf(),
            r is Ok ==> r.unwrap().key() == master_key@,
            r is Ok ==> r.unwrap().secrets() == data@,
            master_key@.len() != KEY_SIZE ==> r matches Err(VaultError::InvalidKeySize { .. }),
            (master_key@.len() == KEY_SIZE && !data.wf()) ==> r matches Err(
                VaultError::InvalidDataFormat(_),
            ),
    {
        if master_key.as_bytes().len() != KEY_SIZE {
            return Err(
                VaultError::InvalidKeySize {
                    expected: KEY_SIZE,
                    found: master_key.as_bytes().len(),
                },
            );
        }
        if !data.check_wf() {
            return Err(VaultError::InvalidDataFormat("stored vault data is malformed".to_owned()));
        }
        Ok(SecretVault { master_key, data })
    }

    /// A read-only view of the stored state, for persistence.
    pub fn data(&self) -> (r: &VaultData)
        ensures
            r@ == self.secrets(),
            self.wf() ==> r.wf(),
    {
        &self.data
    }

    /// The index of the history carrying a name, if any.
    fn find_index(&self, name: &String) -> (r: Option<usize>)
        ensures
            match r {
                Some(i) => i < self.data.secrets@.len() && self.data.secrets@[i as int].name@
                    == name@,
                None => forall|i: int|
                    0 <= i < self.data.secrets@.len() ==> (#[trigger] self.data.secrets@[i]).name@
                        != name@,
            },
    {
        let n = self.data.secrets.len();
        let mut i: usize = 0;
        while i < n
            invariant
                n == self.data.secrets@.len(),
                i <= n,
                forall|k: int|
                    0 <= k < i ==> (#[trigger] self.data.secrets@[k]).name@ != name@,
            decreases n - i,
        {
            if self.data.secrets[i].name == *name {
                return Some(i);
            }
            i = i + 1;
        }
        None
    }

    /// Gets the latest version of a secret: `Ok(None)` when the name is
    /// absent, the decrypted last entry otherwise.
    pub fn get(&self, key: &str) -> (r: Result<Option<Vec<u8>>, VaultError>)
        requires
            self.wf(),
        ensures
            !self.secrets().contains_key(key@) ==> r matches Ok(None),
            self.secrets().contains_key(key@) ==> ({
                let env = self.secrets()[key@].last().env;
                match open_envelope(self.key(), env) {
                    Some(p) => r matches Ok(Some(v)) && v@ == p,
                    None => (if env.len() < NONCE_SIZE {
                        r matches Err(VaultError::InvalidDataFormat(_))
                    } else {
                        r matches Err(VaultError::DecryptionFailed(_))
                    }),
                }
            }),
    {
        let name_owned: String = key.to_owned();
        proof {
            lemma_vault_map_contains(self.data.secrets@, key@);
        }
        match self.find_index(&name_owned) {
            None => Ok(None),
            Some(i) => {
                proof {
                    lemma_vault_map_index(self.data.secrets@, i as int);
                }
                let hist = &self.data.secrets[i];
                let n = hist.entries.len();
                let last = &hist.entries[n - 1];
                match decrypt(self.master_key.as_bytes(), last.encrypted_value.as_slice()) {
                    Ok(p) => Ok(Some(p)),
                    Err(e) => Err(e),
                }
            },
        }
    }

    /// Sets or updates a secret: encrypts the value under the master key
    /// and appends a new entry carrying the next version number.
    #[verifier::rlimit(100)]
    pub fn set(&mut self, key: &str, value: &[u8]) -> (r: Result<(), VaultError>)
        requires
            old(self).wf(),
        ensures
            final(self).wf(),
            final(self).key() == old(self).key(),
            r is Err ==> *final(self) == *old(self),
            r is Ok <==> (valid_secret_name(key@) && value@.len() <= MAX_PLAINTEXT_LEN
                && next_version(stored_history(old(self).secrets(), key@)) <= u32::MAX),
            !valid_secret_name(key@) ==> r matches Err(VaultError::InvalidSecretKey(_)),
            (valid_secret_name(key@) && value@.len() > MAX_PLAINTEXT_LEN) ==> r matches Err(
                VaultError::EncryptionFailed(_),
            ),
            (valid_secret_name(key@) && value@.len() <= MAX_PLAINTEXT_LEN && next_version(
                stored_history(old(self).secrets(), key@),
            ) > u32::MAX) ==> r matches Err(VaultError::InvalidDataFormat(_)),
            r is Ok ==> ({
                let old_h = stored_history(old(self).secrets(), key@);
                let new_h = final(self).secrets()[key@];
                &&& final(self).secrets().contains_key(key@)
                &&& final(self).secrets() == old(self).secrets().insert(key@, new_h)
                &&& new_h.len() == old_h.len() + 1
                &&& new_h.drop_last() == old_h
                &&& new_h.last().version == next_version(old_h)
                &&& open_envelope(old(self).key(), new_h.last().env) == Some(value@)
            }),
    {
        if let Err(e) = validate_secret_key(key) {
            return Err(e);
        }
        let env = match encrypt(self.master_key.as_bytes(), value) {
            Ok(env) => env,
            Err(e) => {
                return Err(e);
            },
        };
        let name_owned: String = key.to_owned();
        proof {
            lemma_vault_map_contains(self.data.secrets@, key@);
        }
        match self.find_index(&name_owned) {
            Some(i) => {
                proof {
                    lemma_vault_map_index(self.data.secrets@, i as int);
                }
                let n_entries = self.data.secrets[i].entries.len();
                let last_version = self.data.secrets[i].entries[n_entries - 1].version;
                if last_version == u32::MAX {
                    return Err(
                        VaultError::InvalidDataFormat(
                            "version numbers for this secret are exhausted".to_owned(),
                        ),
                    );
                }
                let ghost old_pairs = self.data.secrets@;
                let mut hist = self.data.secrets.remove(i);
                hist.entries.push(
                    SecretEntry {
                        encrypted_value: env,
                        version: last_version + 1,
                        created_at: now_millis(),
                    },
                );
                self.data.secrets.insert(i, hist);
                proof {
                    let p = self.data.secrets@[i as int];
                    assert(self.data.secrets@ =~= old_pairs.update(i as int, p));
                    let oh = history_view(old_pairs[i as int].entries@);
                    let nh = history_view(p.entries@);
                    assert(oh.last().version == last_version);
                    assert(nh =~= oh.push(nh.last()));
                    assert(history_wf(nh)) by {
                        assert(history_wf(oh));
                        assert(forall|t: int| 0 <= t < oh.len() ==> nh[t] == oh[t]);
                        assert(nh[nh.len() - 1].version == last_version + 1);
                    }
                    lemma_pairs_wf_update(old_pairs, i as int, p);
                    lemma_vault_map_update(old_pairs, i as int, p);
                    assert(nh.drop_last() =~= oh);
                }
                Ok(())
            },
            None => {
                let mut entries_vec: Vec<SecretEntry> = Vec::new();
                entries_vec.push(
                    SecretEntry { encrypted_value: env, version: 1, created_at: now_millis() },
                );
                let ghost old_pairs = self.data.secrets@;
                self.data.secrets.push(NamedHistory { name: name_owned, entries: entries_vec });
                proof {
                    let p = self.data.secrets@.last();
                    assert(self.data.secrets@ =~= old_pairs.push(p));
                    lemma_vault_map_push(old_pairs, p);
                    let nh = history_view(p.entries@);
                    assert(nh.len() == 1 && nh[0].version == 1 && nh[0].env == env@);
                    assert(history_wf(nh));
                    lemma_pairs_wf_push(old_pairs, p);
                    assert(nh.drop_last() =~= stored_history(old(self).secrets(), key@));
                }
                Ok(())
            },
        }
    }

    /// Gets a specific version of a secret: `Ok(None)` when the name or
    /// the version is absent, the decrypted matching entry otherwise.
    pub fn get_version(&self, key: &str, version: u32) -> (r: Result<
        Option<Vec<u8>>,
        VaultError,
    >)
        requires
            self.wf(),
        ensures
            !self.secrets().contains_key(key@) ==> r matches Ok(None),
            self.secrets().contains_key(key@) ==> (match version_entry(
                self.secrets()[key@],
                version,
            ) {
                None => r matches Ok(None),
                Some(e) => (match open_envelope(self.key(), e.env) {
                    Some(p) => r matches Ok(Some(v)) && v@ == p,
                    None => (if e.env.len() < NONCE_SIZE {
                        r matches Err(VaultError::InvalidDataFormat(_))
                    } else {
                        r matches Err(VaultError::DecryptionFailed(_))
                    }),
                }),
            }),
    {
        let name_owned: String = key.to_owned();
        proof {
            lemma_vault_map_contains(self.data.secrets@, key@);
        }
        match self.find_index(&name_owned) {
            None => Ok(None),
            Some(i) => {
                proof {
                    lemma_vault_map_index(self.data.secrets@, i as int);
                }
                let hist = &self.data.secrets[i];
                let ghost h = history_view(hist.entries@);
                proof {
                    assert(h.skip(0) =~= h);
                }
                let n = hist.entries.len();
                let mut j: usize = 0;
                while j < n
                    invariant
                        self.wf(),
                        self.secrets().contains_key(key@),
                        h == self.secrets()[key@],
                        n == hist.entries@.len(),
                        j <= n,
                        h == history_view(hist.entries@),
                        version_entry(h, version) == version_entry(
                            h.skip(j as int),
                            version,
                        ),
                    decreases n - j,
                {
                    proof {
                        assert(h.skip(j as int).first() == h[j as int]);
                        assert(h.skip(j as int).drop_first() =~= h.skip(j as int + 1));
                    }
                    if hist.entries[j].version == version {
                        assert(version_entry(h, version) == Some(h[j as int]));
                        let entry = &hist.entries[j];
                        return match decrypt(
                            self.master_key.as_bytes(),
                            entry.encrypted_value.as_slice(),
                        ) {
                            Ok(p) => Ok(Some(p)),
                            Err(e) => Err(e),
                        };
                    }
                    j = j + 1;
                }
                proof {
                    assert(h.skip(n as int) =~= Seq::empty());
                }
                Ok(None)
            },
        }
    }

    /// Deletes a secret and all its versions; a no-op when the name was
    /// never present.
    #[verifier::rlimit(50)]
    pub fn delete(&mut self, key: &str) -> (r: Result<(), VaultError>)
        requires
            old(self).wf(),
        ensures
            final(self).wf(),
            final(self).key() == old(self).key(),
            r is Ok,
            final(self).secrets() == old(self).secrets().remove(key@),
    {
        let name_owned: String = key.to_owned();
        proof {
            lemma_vault_map_contains(self.data.secrets@, key@);
        }
        match self.find_index(&name_owned) {
            None => {
                proof {
                    assert(self.secrets().remove(key@) =~= self.secrets());
                }
                Ok(())
            },
            Some(i) => {
                proof {
                    lemma_vault_map_remove(self.data.secrets@, i as int);
                    lemma_pairs_wf_remove(self.data.secrets@, i as int);
                }
                let _ = self.data.secrets.remove(i);
                Ok(())
            },
        }
    }

    /// Lists the version numbers of a secret in creation order; empty when
    /// the name is absent.
    pub fn list_versions(&self, key: &str) -> (r: Result<Vec<u32>, VaultError>)
        requires
            self.wf(),
        ensures
            r is Ok,
            !self.secrets().contains_key(key@) ==> r.unwrap()@ == Seq::<u32>::empty(),
            self.secrets().contains_key(key@) ==> r.unwrap()@ == versions_of(
                self.secrets()[key@],
            ),
    {
        let name_owned: String = key.to_owned();
        proof {
            lemma_vault_map_contains(self.data.secrets@, key@);
        }
        match self.find_index(&name_owned) {
            None => Ok(Vec::new()),
            Some(i) => {
                proof {
                    lemma_vault_map_index(self.data.secrets@, i as int);
                }
                let hist = &self.data.secrets[i];
                let n = hist.entries.len();
                let mut out: Vec<u32> = Vec::new();
                let mut j: usize = 0;
                while j < n
                    invariant
                        n == hist.entries@.len(),
                        j <= n,
                        out@.len() == j,
                        forall|k: int| 0 <= k < j ==> out@[k] == hist.entries@[k].version,
                    decreases n - j,
                {
                    out.push(hist.entries[j].version);
                    j = j + 1;
                }
                proof {
                    assert(out@ =~= versions_of(history_view(hist.entries@)));
                }
                Ok(out)
            },
        }
    }

    /// Rotates the master key: decrypts every stored version under the
    /// current key, re-encrypts it under the new key, and only after every
    /// entry has succeeded replaces the key — wiping the old one — and the
    /// stored state. On any failure the vault is left exactly as it was.
    #[verifier::rlimit(100)]
    pub fn rotate(&mut self, new_key: MasterKey) -> (r: Result<(), VaultError>)
        requires
            old(self).wf(),
            new_key@.len() == KEY_SIZE,
        ensures
            final(self).wf(),
            r is Err ==> *final(self) == *old(self),
            r is Ok <==> all_rotatable(old(self).key(), old(self).secrets()),
            r is Ok ==> final(self).key() == new_key@,
            r is Ok ==> rotated_to(
                old(self).key(),
                old(self).secrets(),
                new_key@,
                final(self).secrets(),
            ),
            r matches Err(VaultError::DecryptionFailed(m)) ==> (old(self).secrets().contains_key(
                m@,
            ) && exists|j: int|
                0 <= j < old(self).secrets()[m@].len() && open_envelope(
                    old(self).key(),
                    (#[trigger] old(self).secrets()[m@][j]).env,
                ) is None),
    {
        let ghost old_pairs = self.data.secrets@;
        let ghost old_key = self.master_key@;
        let mut new_pairs: Vec<NamedHistory> = Vec::new();
        let n = self.data.secrets.len();
        let mut i: usize = 0;
        while i < n
            invariant
                *self == *old(self),
                self.wf(),
                new_key@.len() == KEY_SIZE,
                old_pairs == self.data.secrets@,
                old_key == self.master_key@,
                n == old_pairs.len(),
                i <= n,
                new_pairs@.len() == i,
                forall|k: int|
                    0 <= k < i ==> (#[trigger] new_pairs@[k]).name@ == old_pairs[k].name@,
                forall|k: int|
                    0 <= k < i ==> (#[trigger] new_pairs@[k]).entries@.len()
                        == old_pairs[k].entries@.len(),
                forall|k: int, t: int|
                    #![trigger history_view(new_pairs@[k].entries@)[t]]
                    0 <= k < i && 0 <= t < old_pairs[k].entries@.len() ==> ({
                        let ne = history_view(new_pairs@[k].entries@)[t];
                        let oe = history_view(old_pairs[k].entries@)[t];
                        &&& ne.version == oe.version
                        &&& ne.created_at == oe.created_at
                        &&& open_envelope(new_key@, ne.env) == open_envelope(old_key, oe.env)
                        &&& entry_rotatable(old_key, oe)
                    }),
            decreases n - i,
        {
            let hist = &self.data.secrets[i];
            let m = hist.entries.len();
            let mut new_entries: Vec<SecretEntry> = Vec::new();
            let mut j: usize = 0;
            while j < m
                invariant
                    *self == *old(self),
                    self.wf(),
                    new_key@.len() == KEY_SIZE,
                    old_pairs == self.data.secrets@,
                    old_key == self.master_key@,
                    n == old_pairs.len(),
                    i < n,
                    hist.name@ == old_pairs[i as int].name@,
                    hist.entries@ == old_pairs[i as int].entries@,
                    m == hist.entries@.len(),
                    j <= m,
                    new_entries@.len() == j,
                    forall|t: int|
                        #![trigger history_view(new_entries@)[t]]
                        0 <= t < j ==> ({
                            let ne = history_view(new_entries@)[t];
                            let oe = history_view(hist.entries@)[t];
                            &&& ne.version == oe.version
                            &&& ne.created_at == oe.created_at
                            &&& open_envelope(new_key@, ne.env) == open_envelope(old_key, oe.env)
                            &&& entry_rotatable(old_key, oe)
                        }),
                decreases m - j,
            {
                let entry = &hist.entries[j];
                let ghost oe = history_view(hist.entries@)[j as int];
                let plaintext = match decrypt(
                    self.master_key.as_bytes(),
                    entry.encrypted_value.as_slice(),
                ) {
                    Ok(p) => p,
                    Err(e) => {
                        proof {
                            lemma_vault_map_index(old_pairs, i as int);
                            assert(open_envelope(old_key, oe.env) is None);
                            assert(old(self).secrets()[hist.name@][j as int] == oe);
                            assert(!entry_rotatable(old_key, oe));
                            assert(!all_rotatable(old(self).key(), old(self).secrets()));
                        }
                        return match e {
                            VaultError::DecryptionFailed(_) => Err(
                                VaultError::DecryptionFailed(hist.name.clone()),
                            ),
                            other => Err(other),
                        };
                    },
                };
                let new_env = match encrypt(new_key.as_bytes(), plaintext.as_slice()) {
                    Ok(env) => env,
                    Err(e) => {
                        proof {
                            lemma_vault_map_index(old_pairs, i as int);
                            assert(old(self).secrets()[hist.name@][j as int] == oe);
                            assert(!entry_rotatable(old_key, oe));
                            assert(!all_rotatable(old(self).key(), old(self).secrets()));
                        }
                        return Err(e);
                    },
                };
                let ghost prev_entries = new_entries@;
                new_entries.push(
                    SecretEntry {
                        encrypted_value: new_env,
                        version: entry.version,
                        created_at: entry.created_at,
                    },
                );
                proof {
                    assert forall|t: int| 0 <= t < j implies #[trigger] history_view(
                        new_entries@,
                    )[t] == history_view(prev_entries)[t] by {
                        assert(new_entries@[t] == prev_entries[t]);
                    }
                    assert(history_view(new_entries@)[j as int] == (EntryView {
                        env: new_env@,
                        version: entry.version,
                        created_at: entry.created_at,
                    }));
                    assert(open_envelope(new_key@, new_env@) == open_envelope(old_key, oe.env));
                    assert(entry_rotatable(old_key, oe));
                }
                j = j + 1;
            }
            new_pairs.push(NamedHistory { name: hist.name.clone(), entries: new_entries });
            i = i + 1;
        }
        proof {
            assert(pairs_rotated(old_pairs, new_pairs@, old_key, new_key@));
            lemma_pairs_wf_rotated(old_pairs, new_pairs@, old_key, new_key@);
            lemma_rotated_pairs_to_maps(old_pairs, new_pairs@, old_key, new_key@);
        }
        self.master_key.wipe();
        self.master_key = new_key;
        self.data = VaultData { secrets: new_pairs };
        Ok(())
    }

    /// Lists every secret name currently present.
    pub fn list_keys(&self) -> (r: Vec<String>)
        requires
            self.wf(),
        ensures
            forall|i: int|
                0 <= i < r@.len() ==> self.secrets().contains_key((#[trigger] r@[i])@),
            forall|n: Seq<char>|
                #[trigger] self.secrets().contains_key(n) ==> exists|i: int|
                    0 <= i < r@.len() && (#[trigger] r@[i])@ == n,
            forall|i: int, j: int| 0 <= i < j < r@.len() ==> r@[i]@ != r@[j]@,
    {
        let n = self.data.secrets.len();
        let mut out: Vec<String> = Vec::new();
        let mut i: usize = 0;
        while i < n
            invariant
                n == self.data.secrets@.len(),
                i <= n,
                out@.len() == i,
                forall|k: int|
                    0 <= k < i ==> (#[trigger] out@[k])@ == self.data.secrets@[k].name@,
            decreases n - i,
        {
            out.push(self.data.secrets[i].name.clone());
            i = i + 1;
        }
        proof {
            assert forall|i: int|
                0 <= i < out@.len() implies self.secrets().contains_key(
                (#[trigger] out@[i])@,
            ) by {
                lemma_vault_map_contains(self.data.secrets@, out@[i]@);
            }
            assert forall|n2: Seq<char>|
                #[trigger] self.secrets().contains_key(n2) implies exists|i: int|
                0 <= i < out@.len() && (#[trigger] out@[i])@ == n2 by {
                lemma_vault_map_contains(self.data.secrets@, n2);
                let k = choose|k: int|
                    0 <= k < self.data.secrets@.len() && (#[trigger] self.data.secrets@[k]).name@
                        == n2;
                assert(out@[k]@ == n2);
            }
            assert forall|i: int, j: int| 0 <= i < j < out@.len() implies out@[i]@ != out@[j]@ by {
                assert(self.data.secrets@[i].name@ != self.data.secrets@[j].name@);
            }
        }
        out
    }
}

} // verus!
