//! Similarity of bytecode arrays and the identification of deployed contracts
//! against a registry of compiled artifacts.
use crate::Address;
use vstd::prelude::*;

verus! {

/// A compiled contract's interface definition, carried through unread.
#[verifier::external_type_specification]
#[verifier::external_body]
pub struct ExAbi(ethers::abi::Abi);

/// Scores strictly below `THRESHOLD_NUM / THRESHOLD_DEN` count as a match.
pub const THRESHOLD_NUM: u64 = 1;

/// See `THRESHOLD_NUM`.
pub const THRESHOLD_DEN: u64 = 10;

/// A dissimilarity score `diff / len` in the closed range [0, 1]: 0 means
/// identical, 1 maximally different; `diff_score` never gives a zero `len`.
/// Bytes that only the longer array has count as differing, so the score
/// weighs both length and content.
#[derive(Clone, Copy, Debug)]
pub struct Score {
    pub diff: usize,
    pub len: usize,
}

/// Number of positions below `n` at which `a` and `b` differ.
pub open spec fn diff_count(a: Seq<u8>, b: Seq<u8>, n: nat) -> nat
    decreases n,
{
    if n == 0 {
        0
    } else {
        diff_count(a, b, (n - 1) as nat) + if a[n - 1] != b[n - 1] { 1nat } else { 0nat }
    }
}

/// Length of the part that both arrays cover.
pub open spec fn common_len(a: Seq<u8>, b: Seq<u8>) -> nat {
    if a.len() <= b.len() { a.len() } else { b.len() }
}

/// Length of the longer array.
pub open spec fn longer_len(a: Seq<u8>, b: Seq<u8>) -> nat {
    if a.len() <= b.len() { b.len() } else { a.len() }
}

/// The score as a fraction: the positions of the longer array at which the
/// arrays differ (a byte that only one array has differs), over the length
/// of the longer array; 0 when both arrays are empty.
pub open spec fn score_spec(a: Seq<u8>, b: Seq<u8>) -> (nat, nat) {
    if longer_len(a, b) == 0 {
        (0, 1)
    } else {
        (
            diff_count(a, b, common_len(a, b)) + (longer_len(a, b) - common_len(a, b)) as nat,
            longer_len(a, b),
        )
    }
}

/// `s` is strictly smaller than `t`, as fractions.
pub open spec fn score_lt(s: (nat, nat), t: (nat, nat)) -> bool {
    s.0 * t.1 < t.0 * s.1
}

/// `s` is at most `t`, as fractions.
pub open spec fn score_le(s: (nat, nat), t: (nat, nat)) -> bool {
    s.0 * t.1 <= t.0 * s.1
}

/// `s` is strictly below the match threshold.
pub open spec fn below_threshold(s: (nat, nat)) -> bool {
    s.0 * (THRESHOLD_DEN as nat) < (THRESHOLD_NUM as nat) * s.1
}

impl Score {
    pub open spec fn view(self) -> (nat, nat) {
        (self.diff as nat, self.len as nat)
    }

    /// Whether this score is strictly smaller than `other`.
    pub fn lt(&self, other: &Score) -> (r: bool)
        ensures
            r == score_lt(self.view(), other.view()),
    {
        proof {
            lemma_product_fits(self.diff, other.len);
            lemma_product_fits(other.diff, self.len);
        }
        (self.diff as u128) * (other.len as u128) < (other.diff as u128) * (self.len as u128)
    }

    /// Whether this score counts as a match.
    pub fn is_match(&self) -> (r: bool)
        ensures
            r == below_threshold(self.view()),
    {
        proof {
            lemma_product_fits(self.diff, THRESHOLD_DEN as usize);
        }
        (self.diff as u128) * (THRESHOLD_DEN as u128) < (THRESHOLD_NUM as u128) * (self.len as u128)
    }
}

proof fn lemma_product_fits(x: usize, y: usize)
    ensures
        (x as int) * (y as int) <= u128::MAX,
{
    assert((x as int) * (y as int) <= (usize::MAX as int) * (usize::MAX as int)) by (nonlinear_arith)
        requires
            0 <= x <= usize::MAX,
            0 <= y <= usize::MAX,
    ;
    assert((usize::MAX as int) * (usize::MAX as int) <= u128::MAX) by (nonlinear_arith)
        requires
            usize::MAX <= u64::MAX,
    ;
}

proof fn lemma_diff_count_zero(a: Seq<u8>, b: Seq<u8>, n: nat)
    requires
        n <= a.len(),
        n <= b.len(),
    ensures
        diff_count(a, b, n) == 0 ==> forall|i: int| 0 <= i < n ==> a[i] == b[i],
    decreases n,
{
    if n > 0 {
        lemma_diff_count_zero(a, b, (n - 1) as nat);
    }
}

proof fn lemma_diff_count_bound(a: Seq<u8>, b: Seq<u8>, n: nat)
    ensures
        diff_count(a, b, n) <= n,
    decreases n,
{
    if n > 0 {
        lemma_diff_count_bound(a, b, (n - 1) as nat);
    }
}

/// Dissimilarity of two bytecode arrays: the share of positions of the
/// longer array at which they differ, counting the bytes that only the
/// longer one has; 0 exactly when the arrays are identical.
pub fn diff_score(a: &Vec<u8>, b: &Vec<u8>) -> (r: Score)
    ensures
        r.view() == score_spec(a@, b@),
        r.len > 0,
        r.diff <= r.len,
        r.diff == 0 <==> a@ == b@,
{
    let n: usize = if a.len() <= b.len() { a.len() } else { b.len() };
    let m: usize = if a.len() <= b.len() { b.len() } else { a.len() };
    if m == 0 {
        assert(a@ =~= b@);
        return Score { diff: 0, len: 1 };
    }
    let mut diff: usize = 0;
    let mut i: usize = 0;
    while i < n
        invariant
            n == common_len(a@, b@),
            i <= n,
            diff == diff_count(a@, b@, i as nat),
        decreases n - i,
    {
        proof {
            lemma_diff_count_bound(a@, b@, i as nat);
        }
        if a[i] != b[i] {
            diff = diff + 1;
        }
        i = i + 1;
    }
    proof {
        lemma_diff_count_bound(a@, b@, n as nat);
        lemma_diff_count_zero(a@, b@, n as nat);
        if diff == 0 && n == m {
            assert(a@ =~= b@);
        }
        if a@ == b@ {
            lemma_diff_count_self(a@, n as nat);
        }
    }
    Score { diff: diff + (m - n), len: m }
}

/// Index of the entry of `codes` whose score against `q` is lowest; the
/// earliest such entry when several share that score.
pub open spec fn best_of(codes: Seq<Seq<u8>>, q: Seq<u8>) -> int
    decreases codes.len(),
{
    if codes.len() <= 1 {
        0
    } else {
        let b = best_of(codes.drop_last(), q);
        if score_lt(score_spec(codes.last(), q), score_spec(codes[b], q)) {
            codes.len() - 1
        } else {
            b
        }
    }
}

/// Lowest score of any entry of a non-empty `codes` against `q`.
pub open spec fn min_score(codes: Seq<Seq<u8>>, q: Seq<u8>) -> (nat, nat) {
    score_spec(codes[best_of(codes, q)], q)
}

/// Index of the entry that `q` is identified as, if any.
pub open spec fn match_of(codes: Seq<Seq<u8>>, q: Seq<u8>) -> Option<int> {
    if codes.len() > 0 && below_threshold(min_score(codes, q)) {
        Some(best_of(codes, q))
    } else {
        None
    }
}

proof fn lemma_score_pos(a: Seq<u8>, b: Seq<u8>)
    ensures
        score_spec(a, b).1 > 0,
        score_spec(a, b).0 <= score_spec(a, b).1,
{
    lemma_diff_count_bound(a, b, common_len(a, b));
}

proof fn lemma_le_trans(s: (nat, nat), t: (nat, nat), u: (nat, nat))
    requires
        s.1 > 0,
        t.1 > 0,
        u.1 > 0,
        score_le(s, t),
        score_le(t, u),
    ensures
        score_le(s, u),
{
    assert(s.0 * u.1 <= u.0 * s.1) by (nonlinear_arith)
        requires
            s.1 > 0,
            t.1 > 0,
            u.1 > 0,
            s.0 * t.1 <= t.0 * s.1,
            t.0 * u.1 <= u.0 * t.1,
    ;
}

/// The chosen entry exists and no entry scores lower.
pub proof fn lemma_best_is_minimal(codes: Seq<Seq<u8>>, q: Seq<u8>)
    requires
        codes.len() > 0,
    ensures
        0 <= best_of(codes, q) < codes.len(),
        forall|j: int|
            0 <= j < codes.len() ==> score_le(min_score(codes, q), #[trigger] score_spec(codes[j], q)),
    decreases codes.len(),
{
    if codes.len() > 1 {
        let init = codes.drop_last();
        lemma_best_is_minimal(init, q);
        let b = best_of(init, q);
        let sb = score_spec(codes[b], q);
        let sl = score_spec(codes.last(), q);
        lemma_score_pos(codes[b], q);
        lemma_score_pos(codes.last(), q);
        assert forall|j: int| 0 <= j < codes.len() implies score_le(
            min_score(codes, q),
            #[trigger] score_spec(codes[j], q),
        ) by {
            lemma_score_pos(codes[j], q);
            if j < codes.len() - 1 {
                assert(codes[j] == init[j]);
                assert(score_le(sb, score_spec(init[j], q)));
                if score_lt(sl, sb) {
                    lemma_le_trans(sl, sb, score_spec(codes[j], q));
                }
            } else {
                if !score_lt(sl, sb) {
                    assert(score_le(sb, sl));
                }
            }
        }
    }
}

proof fn lemma_diff_count_self(a: Seq<u8>, n: nat)
    ensures
        diff_count(a, a, n) == 0,
    decreases n,
{
    if n > 0 {
        lemma_diff_count_self(a, (n - 1) as nat);
    }
}

/// A bytecode array scores 0 against itself, and a registry that holds it
/// identifies it.
pub proof fn lemma_identical_code_matches(codes: Seq<Seq<u8>>, q: Seq<u8>, i: int)
    requires
        0 <= i < codes.len(),
        codes[i] == q,
    ensures
        score_spec(q, q).0 == 0,
        match_of(codes, q) is Some,
{
    lemma_diff_count_self(q, q.len());
    lemma_best_is_minimal(codes, q);
    let m = min_score(codes, q);
    let d = score_spec(q, q).1;
    assert(score_le(m, score_spec(codes[i], q)));
    assert(score_spec(codes[i], q) == (0nat, d));
    assert(d > 0);
    assert(m.0 == 0) by (nonlinear_arith)
        requires
            m.0 * d <= 0 * m.1,
            d > 0,
    ;
    lemma_score_pos(codes[best_of(codes, q)], q);
}

proof fn lemma_diff_count_same_prefix(a: Seq<u8>, b: Seq<u8>, n: nat)
    requires
        n <= a.len(),
        n <= b.len(),
        forall|i: int| 0 <= i < n ==> a[i] == b[i],
    ensures
        diff_count(a, b, n) == 0,
    decreases n,
{
    if n > 0 {
        lemma_diff_count_same_prefix(a, b, (n - 1) as nat);
    }
}

/// Bytecode of at least ten bytes with one byte appended (as compiler
/// metadata is) scores `1 / (len + 1)`, below the threshold, so a registry
/// holding only the original bytecode identifies it.
pub proof fn lemma_appended_byte_matches(code: Seq<u8>, extra: u8)
    requires
        code.len() >= 10,
    ensures
        score_spec(code, code.push(extra)) == (1nat, code.len() + 1),
        below_threshold(score_spec(code, code.push(extra))),
        match_of(seq![code], code.push(extra)) == Some(0int),
{
    lemma_diff_count_same_prefix(code, code.push(extra), code.len());
    assert(seq![code].len() == 1);
    assert(seq![code][0] == code);
}

/// When no entry scores below the threshold, nothing is identified.
pub proof fn lemma_no_close_entry_no_match(codes: Seq<Seq<u8>>, q: Seq<u8>)
    requires
        forall|j: int| 0 <= j < codes.len() ==> !below_threshold(#[trigger] score_spec(codes[j], q)),
    ensures
        match_of(codes, q) is None,
{
    if codes.len() > 0 {
        lemma_best_is_minimal(codes, q);
        assert(!below_threshold(score_spec(codes[best_of(codes, q)], q)));
    }
}

/// Adding an entry anywhere in a non-empty registry never raises the lowest
/// score of a query, so a query that was identified stays identified.
pub proof fn lemma_added_entry_never_worsens(codes: Seq<Seq<u8>>, q: Seq<u8>, k: int, e: Seq<u8>)
    requires
        codes.len() > 0,
        0 <= k <= codes.len(),
    ensures
        score_le(min_score(codes.insert(k, e), q), min_score(codes, q)),
        match_of(codes, q) is Some ==> match_of(codes.insert(k, e), q) is Some,
{
    let more = codes.insert(k, e);
    lemma_best_is_minimal(codes, q);
    lemma_best_is_minimal(more, q);
    let b = best_of(codes, q);
    if b < k {
        assert(more[b] == codes[b]);
    } else {
        assert(more[b + 1] == codes[b]);
    }
    let s = min_score(more, q);
    let t = min_score(codes, q);
    lemma_score_pos(more[best_of(more, q)], q);
    lemma_score_pos(codes[b], q);
    if below_threshold(t) {
        assert(below_threshold(s)) by (nonlinear_arith)
            requires
                s.1 > 0,
                t.1 > 0,
                s.0 * t.1 <= t.0 * s.1,
                t.0 * (THRESHOLD_DEN as nat) < (THRESHOLD_NUM as nat) * t.1,
                THRESHOLD_DEN == 10,
                THRESHOLD_NUM == 1,
        ;
    }
}

/// The characters of an optional string.
pub open spec fn text_of(s: Option<String>) -> Option<Seq<char>> {
    match s {
        Some(t) => Some(t@),
        None => None,
    }
}

/// Figures out which interfaces and labels belong to the addresses of a
/// trace.
pub trait TraceIdentifier {
    /// Identifies an address as `(contract, label, abi)` from its runtime
    /// bytecode, if any.
    fn identify_address(&self, address: &Address, code: Option<&Vec<u8>>) -> (
        Option<String>,
        Option<String>,
        Option<&ethers::abi::Abi>,
    );
}

/// No two entries of `codes` are equal.
pub open spec fn codes_distinct(codes: Seq<Seq<u8>>) -> bool {
    forall|a: int, b: int| 0 <= a < b < codes.len() ==> #[trigger] codes[a] != #[trigger] codes[b]
}

/// The bytecode of each entry.
pub open spec fn codes_of(entries: Seq<ArtifactEntry>) -> Seq<Seq<u8>> {
    Seq::new(entries.len(), |i: int| entries[i].code@)
}

/// Entry `m` of `known` is the last one with its bytecode.
pub open spec fn is_last_with_code(known: Seq<ArtifactEntry>, m: int) -> bool {
    &&& 0 <= m < known.len()
    &&& forall|t: int| m < t < known.len() ==> (#[trigger] known[t]).code@ != known[m].code@
}

/// `(code, name, abi)` is the last entry of `known` with bytecode `code`.
pub open spec fn stands_for(
    known: Seq<ArtifactEntry>,
    code: Seq<u8>,
    name: Seq<char>,
    abi: ethers::abi::Abi,
) -> bool {
    exists|m: int|
        #![trigger known[m]]
        is_last_with_code(known, m) && known[m].code@ == code && known[m].name@ == name
            && known[m].abi == abi
}

/// One known contract: its name, its interface and its runtime bytecode.
pub struct ArtifactEntry {
    pub name: String,
    pub abi: ethers::abi::Abi,
    pub code: Vec<u8>,
}

/// Identifies addresses as instances of locally compiled contracts.
pub struct LocalTraceIdentifier {
    local_contracts: Vec<ArtifactEntry>,
}

impl LocalTraceIdentifier {
    /// The runtime bytecode of each known contract, in registry order.
    pub closed spec fn codes(&self) -> Seq<Seq<u8>> {
        Seq::new(self.local_contracts@.len(), |i: int| self.local_contracts@[i].code@)
    }

    /// The name of each known contract, in registry order.
    pub closed spec fn names(&self) -> Seq<Seq<char>> {
        Seq::new(self.local_contracts@.len(), |i: int| self.local_contracts@[i].name@)
    }

    /// The interface of each known contract, in registry order.
    pub closed spec fn abis(&self) -> Seq<ethers::abi::Abi> {
        Seq::new(self.local_contracts@.len(), |i: int| self.local_contracts@[i].abi)
    }

    /// The three views have one entry per known contract.
    pub proof fn lemma_view_lengths(&self)
        ensures
            self.names().len() == self.codes().len(),
            self.abis().len() == self.codes().len(),
    {
    }

    /// Builds the registry, one entry per distinct bytecode: where several
    /// known contracts share a bytecode, the last of them stands for it.
    /// The registry is read-only afterwards.
    pub fn new(known_contracts: Vec<ArtifactEntry>) -> (r: Self)
        ensures
            r.names().len() == r.codes().len(),
            r.abis().len() == r.codes().len(),
            codes_distinct(r.codes()),
            forall|k: int|
                0 <= k < known_contracts@.len() ==> r.codes().contains(#[trigger] known_contracts@[k].code@),
            forall|i: int|
                0 <= i < r.codes().len() ==> #[trigger] stands_for(
                    known_contracts@,
                    r.codes()[i],
                    r.names()[i],
                    r.abis()[i],
                ),
    {
        let ghost all = known_contracts@;
        let mut rest = known_contracts;
        let mut out: Vec<ArtifactEntry> = Vec::new();
        let mut k: usize = 0;
        let total: usize = rest.len();
        while rest.len() > 0
            invariant
                k <= all.len(),
                total == all.len(),
                rest@ == all.skip(k as int),
                codes_distinct(codes_of(out@)),
                forall|m: int| 0 <= m < k ==> codes_of(out@).contains(#[trigger] all[m].code@),
                forall|i: int|
                    0 <= i < out@.len() ==> #[trigger] stands_for(
                        all.take(k as int),
                        out@[i].code@,
                        out@[i].name@,
                        out@[i].abi,
                    ),
            decreases rest@.len(),
        {
            let e = rest.remove(0);
            assert(e == all[k as int]);
            let mut j: usize = 0;
            let mut found = false;
            while j < out.len() && !found
                invariant
                    j <= out@.len(),
                    found ==> j < out@.len() && out@[j as int].code@ == e.code@,
                    !found ==> forall|t: int| 0 <= t < j ==> (#[trigger] out@[t]).code@ != e.code@,
                decreases out@.len() - j + (if found { 0int } else { 1int }),
            {
                if diff_score(&out[j].code, &e.code).diff == 0 {
                    found = true;
                } else {
                    j = j + 1;
                }
            }
            let ghost prev = out@;
            let ghost seen = all.take(k as int);
            if found {
                out.remove(j);
                out.insert(j, e);
                proof {
                    assert(out@ =~= prev.update(j as int, e));
                }
            } else {
                out.push(e);
            }
            k = k + 1;
            proof {
                let now = all.take(k as int);
                assert(now =~= seen.push(e));
                assert(rest@ =~= all.skip(k as int));
                assert(forall|i: int| 0 <= i < prev.len() ==> #[trigger] codes_of(prev)[i] == prev[i].code@);
                assert forall|i: int| 0 <= i < out@.len() implies #[trigger] codes_of(out@)[i] == out@[i].code@ by {}
                assert forall|a: int, b: int|
                    0 <= a < b < codes_of(out@).len() implies #[trigger] codes_of(out@)[a]
                        != #[trigger] codes_of(out@)[b] by {
                    if found || b < prev.len() {
                        assert(codes_of(prev)[a] != codes_of(prev)[b]);
                    }
                }
                assert forall|m: int| 0 <= m < k implies codes_of(out@).contains(#[trigger] all[m].code@) by {
                    if m < k - 1 {
                        assert(codes_of(prev).contains(all[m].code@));
                        let i = choose|i: int| 0 <= i < prev.len() && codes_of(prev)[i] == all[m].code@;
                        assert(codes_of(out@)[i] == all[m].code@);
                    } else if found {
                        assert(codes_of(out@)[j as int] == all[m].code@);
                    } else {
                        assert(codes_of(out@)[prev.len() as int] == all[m].code@);
                    }
                }
                assert forall|i: int| 0 <= i < out@.len() implies #[trigger] stands_for(
                    now,
                    out@[i].code@,
                    out@[i].name@,
                    out@[i].abi,
                ) by {
                    if (found && i == j as int) || (!found && i == prev.len()) {
                        assert(is_last_with_code(now, k - 1));
                        assert(now[k - 1] == e);
                    } else {
                        assert(out@[i] == prev[i]);
                        assert(stands_for(seen, prev[i].code@, prev[i].name@, prev[i].abi));
                        let m = choose|m: int|
                            #![trigger seen[m]]
                            is_last_with_code(seen, m) && seen[m].code@ == prev[i].code@ && seen[m].name@
                                == prev[i].name@ && seen[m].abi == prev[i].abi;
                        if found {
                            assert(codes_of(prev)[i] != codes_of(prev)[j as int]);
                        }
                        assert(now[m] == seen[m]);
                        assert(now[k - 1].code@ != now[m].code@);
                        assert(is_last_with_code(now, m));
                    }
                }
            }
        }
        proof {
            assert(all.take(k as int) =~= all);
        }
        let r = LocalTraceIdentifier { local_contracts: out };
        assert(r.codes() =~= codes_of(out@));
        r
    }

    /// Index of the known contract that `code` is identified as: the one with
    /// the lowest score (the earliest among equals), if that score is below
    /// the threshold.
    pub fn best_match(&self, code: &Vec<u8>) -> (r: Option<usize>)
        ensures
            match r {
                Some(i) => match_of(self.codes(), code@) == Some(i as int),
                None => match_of(self.codes(), code@) is None,
            },
            r is Some ==> r->Some_0 < self.codes().len(),
    {
        let n = self.local_contracts.len();
        if n == 0 {
            return None;
        }
        let ghost codes = self.codes();
        let mut best: usize = 0;
        let mut best_score = diff_score(&self.local_contracts[0].code, code);
        let mut i: usize = 1;
        assert(codes.subrange(0, 1).drop_last() =~= codes.subrange(0, 0));
        while i < n
            invariant
                n == self.local_contracts@.len(),
                codes == self.codes(),
                1 <= i <= n,
                best == best_of(codes.subrange(0, i as int), code@),
                best < i,
                best_score.view() == score_spec(codes[best as int], code@),
            decreases n - i,
        {
            let s = diff_score(&self.local_contracts[i].code, code);
            assert(codes.subrange(0, i + 1).drop_last() =~= codes.subrange(0, i as int));
            assert(codes.subrange(0, i + 1)[best as int] == codes[best as int]);
            if s.lt(&best_score) {
                best = i;
                best_score = s;
            }
            i = i + 1;
        }
        assert(codes.subrange(0, n as int) =~= codes);
        proof {
            lemma_best_is_minimal(codes, code@);
        }
        if best_score.is_match() {
            Some(best)
        } else {
            None
        }
    }

    /// Names a deployed contract from its runtime bytecode:
    /// `(contract, label, abi)`, all absent when no code is given or no known
    /// contract is similar enough.
    pub fn identify(&self, code: Option<&Vec<u8>>) -> (r: (
        Option<String>,
        Option<String>,
        Option<&ethers::abi::Abi>,
    ))
        ensures
            code is None ==> r.0 is None && r.1 is None && r.2 is None,
            code is Some ==> match match_of(self.codes(), code->Some_0@) {
                Some(i) => text_of(r.0) == Some(self.names()[i]) && text_of(r.1) == Some(
                    self.names()[i],
                ) && r.2 == Some(&self.abis()[i]),
                None => r.0 is None && r.1 is None && r.2 is None,
            },
    {
        match code {
            None => (None, None, None),
            Some(c) => match self.best_match(c) {
                Some(i) => {
                    let entry = &self.local_contracts[i];
                    (Some(entry.name.clone()), Some(entry.name.clone()), Some(&entry.abi))
                },
                None => (None, None, None),
            },
        }
    }
}

impl TraceIdentifier for LocalTraceIdentifier {
    /// The address plays no part: the runtime bytecode alone decides.
    fn identify_address(&self, address: &Address, code: Option<&Vec<u8>>) -> (r: (
        Option<String>,
        Option<String>,
        Option<&ethers::abi::Abi>,
    ))
        ensures
            code is None ==> r.0 is None && r.1 is None && r.2 is None,
            code is Some ==> match match_of(self.codes(), code->Some_0@) {
                Some(i) => text_of(r.0) == Some(self.names()[i]) && text_of(r.1) == Some(
                    self.names()[i],
                ) && r.2 == Some(&self.abis()[i]),
                None => r.0 is None && r.1 is None && r.2 is None,
            },
    {
        self.identify(code)
    }
}

} // verus!
