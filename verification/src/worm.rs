//! Write-once factor registry: every alpha factor is sealed with a SHA-256
//! digest that commits to the seal of the entry before it.

use vstd::prelude::*;
use crate::bignat::{dec_digits, push_char};
use crate::digest::{sha256_hex, sha256_hex_spec, write_u64_decimal};

verus! {

/// The fields of a factor artifact as text.
pub struct ArtifactView {
    pub factor_id: Seq<char>,
    pub arithmetic_invariant: Seq<char>,
    pub proof_hash: Seq<char>,
    pub code_hash: Seq<char>,
    pub sharpe_low: Seq<char>,
    pub sharpe_high: Seq<char>,
    pub pnl: Seq<char>,
    pub entropy_signature: Seq<char>,
    pub operator: Seq<char>,
    pub timestamp: u64,
    pub previous_seal: Option<Seq<char>>,
    pub seal: Seq<char>,
}

/// A sealed alpha factor.
#[derive(Clone, Debug)]
pub struct FactorArtifact {
    pub factor_id: String,
    pub arithmetic_invariant: String,
    pub proof_hash: String,
    pub code_hash: String,
    pub sharpe_low: String,
    pub sharpe_high: String,
    pub pnl: String,
    pub entropy_signature: String,
    pub operator: String,
    pub timestamp: u64,
    pub previous_seal: Option<String>,
    pub seal: String,
}

/// The text of an optional string.
pub open spec fn opt_text(s: Option<String>) -> Option<Seq<char>> {
    match s {
        Some(t) => Some(t@),
        None => None,
    }
}

impl View for FactorArtifact {
    type V = ArtifactView;

    open spec fn view(&self) -> ArtifactView {
        ArtifactView {
            factor_id: self.factor_id@,
            arithmetic_invariant: self.arithmetic_invariant@,
            proof_hash: self.proof_hash@,
            code_hash: self.code_hash@,
            sharpe_low: self.sharpe_low@,
            sharpe_high: self.sharpe_high@,
            pnl: self.pnl@,
            entropy_signature: self.entropy_signature@,
            operator: self.operator@,
            timestamp: self.timestamp,
            previous_seal: opt_text(self.previous_seal),
            seal: self.seal@,
        }
    }
}

/// The field separator.
pub open spec fn bar() -> Seq<char> {
    seq!['|']
}

/// What the first seal of a chain commits to in place of a previous seal.
pub open spec fn genesis() -> Seq<char> {
    seq!['G', 'E', 'N', 'E', 'S', 'I', 'S']
}

/// The previous seal a fresh artifact commits to.
pub open spec fn seal_prev(p: Option<Seq<char>>) -> Seq<char> {
    match p {
        Some(s) => s,
        None => genesis(),
    }
}

/// The text that a seal hashes: the identifying fields, the timestamp and the
/// previous seal, separated by `|`. The Sharpe bounds are not part of it.
pub open spec fn seal_content(v: ArtifactView, prev: Seq<char>) -> Seq<char> {
    v.factor_id + bar() + v.arithmetic_invariant + bar() + v.proof_hash + bar() + v.code_hash
        + bar() + v.pnl + bar() + v.entropy_signature + bar() + v.operator + bar() + dec_digits(
        v.timestamp as nat,
    ) + bar() + prev
}

/// The seal of an artifact committing to `prev`.
pub open spec fn seal_of(v: ArtifactView, prev: Seq<char>) -> Seq<char> {
    sha256_hex_spec(seal_content(v, prev))
}

/// A seal commits to the previous seal it is made with: two seal contents of
/// the same fields are equal only when their previous seals are equal.
pub proof fn law_seal_content_commits_to_previous(v: ArtifactView, s1: Seq<char>, s2: Seq<char>)
    requires
        seal_content(v, s1) == seal_content(v, s2),
    ensures
        s1 == s2,
{
    let c1 = seal_content(v, s1);
    let c2 = seal_content(v, s2);
    let n = c1.len() - s1.len();
    assert(c1.subrange(n, c1.len() as int) =~= s1);
    assert(c2.subrange(n, c2.len() as int) =~= s2);
}

/// A freshly sealed artifact (as `new` and `new_at` make it) that names a
/// previous seal `s` has as its seal the hash of its fields followed by `s`
/// itself; only an artifact without a previous seal commits to `GENESIS`.
pub proof fn law_fresh_seal_uses_given_previous(v: ArtifactView)
    requires
        v.seal == seal_of(v, seal_prev(v.previous_seal)),
    ensures
        v.previous_seal matches Some(s) ==> v.seal == sha256_hex_spec(
            v.factor_id + bar() + v.arithmetic_invariant + bar() + v.proof_hash + bar() + v.code_hash
                + bar() + v.pnl + bar() + v.entropy_signature + bar() + v.operator + bar()
                + dec_digits(v.timestamp as nat) + bar() + s,
        ),
        v.previous_seal is None ==> v.seal == sha256_hex_spec(
            v.factor_id + bar() + v.arithmetic_invariant + bar() + v.proof_hash + bar() + v.code_hash
                + bar() + v.pnl + bar() + v.entropy_signature + bar() + v.operator + bar()
                + dec_digits(v.timestamp as nat) + bar() + seq!['G', 'E', 'N', 'E', 'S', 'I', 'S'],
        ),
{
}

/// Appends `t` and then a separator.
fn push_field(s: &mut String, t: &str)
    ensures
        final(s)@ == old(s)@ + t@ + bar(),
{
    s.append(t);
    push_char(s, '|');
    proof {
        assert(final(s)@ =~= old(s)@ + t@ + bar());
    }
}

/// The seal of `a` committing to the previous seal `prev`.
fn compute_seal(a: &FactorArtifact, prev: &str) -> (r: String)
    ensures
        r@ == seal_of(a@, prev@),
{
    let mut content = String::new();
    push_field(&mut content, a.factor_id.as_str());
    push_field(&mut content, a.arithmetic_invariant.as_str());
    push_field(&mut content, a.proof_hash.as_str());
    push_field(&mut content, a.code_hash.as_str());
    push_field(&mut content, a.pnl.as_str());
    push_field(&mut content, a.entropy_signature.as_str());
    push_field(&mut content, a.operator.as_str());
    write_u64_decimal(a.timestamp, &mut content);
    push_char(&mut content, '|');
    content.append(prev);
    proof {
        assert(content@ =~= seal_content(a@, prev@));
    }
    sha256_hex(content.as_str())
}

/// Seconds since the Unix epoch by the system clock, through
/// `std::time::SystemTime::elapsed` on `UNIX_EPOCH`; zero when the clock
/// stands before the epoch. Nothing is claimed of the value.
#[verifier::external_body]
fn unix_time_now() -> u64 {
    match std::time::UNIX_EPOCH.elapsed() {
        Ok(d) => d.as_secs(),
        Err(_) => 0,
    }
}

impl FactorArtifact {
    /// A factor sealed at the current time of the system clock.
    pub fn new(
        factor_id: String,
        arithmetic_invariant: String,
        proof_hash: String,
        code_hash: String,
        sharpe_low: String,
        sharpe_high: String,
        pnl: String,
        entropy_signature: String,
        operator: String,
        previous_seal: Option<String>,
    ) -> (r: Self)
        ensures
            r@.factor_id == factor_id@,
            r@.arithmetic_invariant == arithmetic_invariant@,
            r@.proof_hash == proof_hash@,
            r@.code_hash == code_hash@,
            r@.sharpe_low == sharpe_low@,
            r@.sharpe_high == sharpe_high@,
            r@.pnl == pnl@,
            r@.entropy_signature == entropy_signature@,
            r@.operator == operator@,
            r@.previous_seal == opt_text(previous_seal),
            r@.seal == seal_of(r@, seal_prev(r@.previous_seal)),
            previous_seal matches Some(s) ==> r@.seal == seal_of(r@, s@),
            previous_seal is None ==> r@.seal == seal_of(r@, genesis()),
    {
        let timestamp = unix_time_now();
        FactorArtifact::new_at(
            factor_id,
            arithmetic_invariant,
            proof_hash,
            code_hash,
            sharpe_low,
            sharpe_high,
            pnl,
            entropy_signature,
            operator,
            timestamp,
            previous_seal,
        )
    }

    /// A factor sealed with the given timestamp: the seal is the SHA-256 of the
    /// identifying fields, the timestamp and the previous seal (or `GENESIS`).
    pub fn new_at(
        factor_id: String,
        arithmetic_invariant: String,
        proof_hash: String,
        code_hash: String,
        sharpe_low: String,
        sharpe_high: String,
        pnl: String,
        entropy_signature: String,
        operator: String,
        timestamp: u64,
        previous_seal: Option<String>,
    ) -> (r: Self)
        ensures
            r@.factor_id == factor_id@,
            r@.arithmetic_invariant == arithmetic_invariant@,
            r@.proof_hash == proof_hash@,
            r@.code_hash == code_hash@,
            r@.sharpe_low == sharpe_low@,
            r@.sharpe_high == sharpe_high@,
            r@.pnl == pnl@,
            r@.entropy_signature == entropy_signature@,
            r@.operator == operator@,
            r@.timestamp == timestamp,
            r@.previous_seal == opt_text(previous_seal),
            r@.seal == seal_of(r@, seal_prev(r@.previous_seal)),
            previous_seal matches Some(s) ==> r@.seal == seal_of(r@, s@),
            previous_seal is None ==> r@.seal == seal_of(r@, genesis()),
    {
        let mut a = FactorArtifact {
            factor_id,
            arithmetic_invariant,
            proof_hash,
            code_hash,
            sharpe_low,
            sharpe_high,
            pnl,
            entropy_signature,
            operator,
            timestamp,
            previous_seal,
            seal: String::new(),
        };
        let seal = match &a.previous_seal {
            Some(p) => compute_seal(&a, p.as_str()),
            None => {
                let g = "GENESIS";
                proof {
                    reveal_strlit("GENESIS");
                    assert(g@ =~= genesis());
                }
                compute_seal(&a, g)
            },
        };
        a.seal = seal;
        a
    }
}

/// The artifact as the ledger stores it after `entries`: past the first entry it
/// commits to the seal of the last one, and is resealed accordingly.
pub open spec fn appended(entries: Seq<ArtifactView>, a: ArtifactView) -> ArtifactView {
    if entries.len() == 0 {
        a
    } else {
        ArtifactView {
            previous_seal: Some(entries.last().seal),
            seal: seal_of(a, entries.last().seal),
            ..a
        }
    }
}

/// Every entry after the first names the seal of the entry before it.
pub open spec fn chain_linked(entries: Seq<ArtifactView>) -> bool {
    forall|i: int|
        1 <= i < entries.len() ==> #[trigger] entries[i].previous_seal == Some(entries[i - 1].seal)
}

/// Append-only ledger of sealed factors.
pub struct FactorLedger {
    entries: Vec<FactorArtifact>,
}

impl View for FactorLedger {
    type V = Seq<ArtifactView>;

    closed spec fn view(&self) -> Seq<ArtifactView> {
        self.entries@.map_values(|a: FactorArtifact| a@)
    }
}

impl FactorLedger {
    /// Every ledger is linked: each entry after the first names the seal of the
    /// entry before it.
    #[verifier::type_invariant]
    closed spec fn linked(self) -> bool {
        chain_linked(self@)
    }

    /// An empty ledger.
    pub fn new() -> (r: Self)
        ensures
            r@ == Seq::<ArtifactView>::empty(),
            chain_linked(r@),
    {
        let r = FactorLedger { entries: Vec::new() };
        proof {
            assert(r@ =~= Seq::<ArtifactView>::empty());
        }
        r
    }

    /// Appends a factor, linking and resealing it to the last entry's seal
    /// when there is one, and returns the stored entry.
    pub fn append(&mut self, artifact: FactorArtifact) -> (r: &FactorArtifact)
        ensures
            final(self)@ == old(self)@.push(appended(old(self)@, artifact@)),
            r@ == appended(old(self)@, artifact@),
            chain_linked(final(self)@),
    {
        proof {
            use_type_invariant(&*self);
        }
        let ghost orig = artifact@;
        let mut artifact = artifact;
        let n = self.entries.len();
        let ghost before = self@;
        if n > 0 {
            let last_seal = self.entries[n - 1].seal.clone();
            let seal = compute_seal(&artifact, last_seal.as_str());
            proof {
                assert(before[n - 1] == self.entries@[n - 1]@);
            }
            artifact.previous_seal = Some(last_seal);
            artifact.seal = seal;
        }
        proof {
            if n > 0 {
                assert(seal_content(artifact@, before.last().seal) == seal_content(orig, before.last().seal));
            }
            assert(artifact@ == appended(before, orig));
        }
        proof {
            law_append_keeps_chain(before, orig);
        }
        let mut entries: Vec<FactorArtifact> = Vec::new();
        std::mem::swap(&mut entries, &mut self.entries);
        entries.push(artifact);
        proof {
            assert(entries@.map_values(|a: FactorArtifact| a@) =~= before.push(entries@[n as int]@));
        }
        self.entries = entries;
        &self.entries[n]
    }

    /// Whether every entry after the first names the seal of the entry before it.
    pub fn verify_chain(&self) -> (b: bool)
        ensures
            b == chain_linked(self@),
            b,
    {
        proof {
            use_type_invariant(self);
        }
        let n = self.entries.len();
        let mut i: usize = 1;
        while i < n
            invariant
                n == self.entries.len(),
                chain_linked(self@),
                1 <= i,
                n == 0 || i <= n,
                forall|j: int| 1 <= j < i && j < n ==> #[trigger] self@[j].previous_seal == Some(
                    self@[j - 1].seal,
                ),
            decreases n - i,
        {
            let prev: &String = &self.entries[i - 1].seal;
            let ok = match &self.entries[i].previous_seal {
                Some(p) => p.eq(prev),
                None => false,
            };
            proof {
                assert(self@[i as int] == self.entries@[i as int]@);
                assert(self@[i - 1] == self.entries@[i - 1]@);
            }
            if !ok {
                assert(!(self@[i as int].previous_seal == Some(self@[i - 1].seal)));
                return false;
            }
            i = i + 1;
        }
        true
    }

    /// The number of entries.
    pub fn len(&self) -> (r: usize)
        ensures
            r == self@.len(),
    {
        self.entries.len()
    }

    /// The entries, oldest first.
    pub fn entries(&self) -> (r: &[FactorArtifact])
        ensures
            r@.map_values(|a: FactorArtifact| a@) == self@,
    {
        self.entries.as_slice()
    }
}

/// Appending keeps a linked chain linked: the new entry names the seal of the
/// entry before it, and the earlier entries are untouched.
pub proof fn law_append_keeps_chain(entries: Seq<ArtifactView>, a: ArtifactView)
    ensures
        chain_linked(entries) ==> chain_linked(entries.push(appended(entries, a))),
{
    let es = entries.push(appended(entries, a));
    if chain_linked(entries) {
        assert forall|i: int| 1 <= i < es.len() implies #[trigger] es[i].previous_seal == Some(
            es[i - 1].seal,
        ) by {
            if i < entries.len() {
                assert(es[i] == entries[i]);
                assert(es[i - 1] == entries[i - 1]);
            }
        }
    }
}

/// Past the first entry, an appended factor commits to the seal of the entry
/// before it: its previous seal is that seal, and its own seal is the hash of
/// its fields with that seal.
pub proof fn law_append_commits_to_previous(entries: Seq<ArtifactView>, a: ArtifactView)
    requires
        entries.len() > 0,
    ensures
        appended(entries, a).previous_seal == Some(entries.last().seal),
        appended(entries, a).seal == seal_of(appended(entries, a), entries.last().seal),
{
    let b = appended(entries, a);
    assert(seal_content(b, entries.last().seal) == seal_content(a, entries.last().seal));
}

} // verus!
