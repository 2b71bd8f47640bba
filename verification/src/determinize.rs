//! The powerset construction: converting a nondeterministic machine into an
//! equivalent deterministic one, plus the trivial inverse lift. Every
//! non-empty subset of the declared states becomes one deterministic state —
//! eagerly and exhaustively, not only the subsets reachable from the initial
//! configuration, so the output has `2^n - 1` states; this is a documented
//! scalability ceiling of the construction. A subset is encoded canonically
//! as a bit mask over the positions of the declared state list: two subsets
//! with the same members always get the same identifier, and `0`, the empty
//! subset, is never a declared identifier, so it reads as a dead target.

use vstd::prelude::*;

use crate::dfa;
use crate::nfa;
use crate::nfa::NFA;
use crate::table::{find_char, find_u64, has_key, lemma_key_at, unique_keys, value_of};

verus! {

/// Whether bit `j` of `mask` is set.
pub open spec fn bit(mask: u64, j: int) -> bool {
    0 <= j < 64 && (mask >> (j as u64)) & 1u64 == 1u64
}

/// The subset of declared state identifiers a mask denotes: bit `j` stands
/// for the identifier of the `j`-th declared state.
pub open spec fn mask_set(rows: Seq<(u64, nfa::State)>, mask: u64) -> Set<u64> {
    Set::new(
        |id: u64| exists|j: int| 0 <= j < rows.len() && #[trigger] bit(mask, j) && rows[j].0 == id,
    )
}

/// The mask encoding of a list of identifiers: the bit of each identifier's
/// position among the declared states, or nothing if some identifier is not
/// declared.
pub open spec fn encode(rows: Seq<(u64, nfa::State)>, ids: Seq<u64>) -> Option<u64>
    decreases ids.len(),
{
    if ids.len() == 0 {
        Some(0u64)
    } else {
        match encode(rows, ids.drop_last()) {
            None => None,
            Some(m) => if has_key(rows, ids.last()) {
                Some(m | (1u64 << (crate::table::index_of(rows, ids.last()) as u64)))
            } else {
                None
            },
        }
    }
}

/// Whether the subset a mask denotes holds an accepting state.
pub open spec fn det_accepts(rows: Seq<(u64, nfa::State)>, mask: u64) -> bool {
    exists|j: int| 0 <= j < rows.len() && #[trigger] bit(mask, j) && rows[j].1.accepts
}

/// Merges one member's encoded targets into the entry built so far: an
/// undeclared target anywhere poisons the whole union.
pub open spec fn merge_enc(prev: Option<Option<u64>>, enc: Option<u64>) -> Option<u64> {
    match prev {
        None => enc,
        Some(p) => match (p, enc) {
            (Some(a), Some(b)) => Some(a | b),
            _ => None,
        },
    }
}

/// The entry the determinized table holds for `(mask, sym)` after folding in
/// the first `j` declared states: nothing while no folded member has an
/// entry for `sym`, else the encoded union of their targets, an undeclared
/// target collapsing the union.
pub open spec fn det_entry(
    rows: Seq<(u64, nfa::State)>,
    mask: u64,
    sym: char,
    j: int,
) -> Option<Option<u64>>
    decreases j,
{
    if j <= 0 {
        None
    } else {
        let prev = det_entry(rows, mask, sym, j - 1);
        if bit(mask, j - 1) && has_key(rows[j - 1].1.transitions@, sym) {
            Some(merge_enc(prev, encode(rows, value_of(rows[j - 1].1.transitions@, sym)@)))
        } else {
            prev
        }
    }
}

/// The target identifier an entry stores: the encoded union, an empty or
/// collapsed union reading as `0`, which no determinized state carries.
pub open spec fn entry_target(e: Option<u64>) -> u64 {
    match e {
        Some(m) => m,
        None => 0u64,
    }
}

/// The stored target of a present entry.
pub open spec fn entry_value(e: Option<Option<u64>>) -> u64 {
    match e {
        Some(inner) => entry_target(inner),
        None => 0u64,
    }
}

/// The transition map of the determinized state `mask`.
pub open spec fn det_targets(rows: Seq<(u64, nfa::State)>, mask: u64) -> Map<char, u64> {
    Map::new(
        |sym: char| det_entry(rows, mask, sym, rows.len() as int) is Some,
        |sym: char| entry_value(det_entry(rows, mask, sym, rows.len() as int)),
    )
}

/// The full determinized state table: one state per non-empty subset mask.
pub open spec fn det_states(rows: Seq<(u64, nfa::State)>) -> Map<u64, dfa::StateModel> {
    Map::new(
        |mask: u64| 1 <= mask < (1u64 << (rows.len() as u64)),
        |mask: u64|
            (dfa::StateModel {
                accepts: det_accepts(rows, mask),
                targets: det_targets(rows, mask),
            }),
    )
}

/// The determinized initial configuration: the mask of the current set, or
/// the dead configuration if that set is empty or holds an undeclared
/// identifier.
pub open spec fn det_current(rows: Seq<(u64, nfa::State)>, cur: Seq<u64>) -> Option<u64> {
    match encode(rows, cur) {
        None => None,
        Some(m) => if m == 0 {
            None
        } else {
            Some(m)
        },
    }
}

/// Whether every transition target of the machine names a declared state.
pub open spec fn closed(m: Map<u64, nfa::StateModel>) -> bool {
    forall|s: u64, sym: char, t: u64|
        m.dom().contains(s) && m[s].targets.dom().contains(sym)
            && #[trigger] m[s].targets[sym].contains(t) ==> m.dom().contains(t)
}

/// Bit reading of a bitwise or.
proof fn lemma_bit_or(a: u64, b: u64, j: int)
    ensures
        bit(a | b, j) == (bit(a, j) || bit(b, j)),
{
    if 0 <= j < 64 {
        let ju = j as u64;
        assert((((a | b) >> ju) & 1u64 == 1u64) == (((a >> ju) & 1u64 == 1u64) || ((b >> ju)
            & 1u64 == 1u64))) by (bit_vector);
    }
}

/// Bit reading of a single-bit mask.
proof fn lemma_bit_single(p: u64, j: int)
    requires
        p < 64,
    ensures
        bit(1u64 << p, j) == (j == p),
{
    if 0 <= j < 64 {
        let ju = j as u64;
        assert((((1u64 << p) >> ju) & 1u64 == 1u64) == (ju == p)) by (bit_vector)
            requires
                p < 64,
                ju < 64,
        ;
    }
}

/// No bit of zero is set.
proof fn lemma_bit_zero(j: int)
    ensures
        !bit(0u64, j),
{
    if 0 <= j < 64 {
        let ju = j as u64;
        assert(!((0u64 >> ju) & 1u64 == 1u64)) by (bit_vector);
    }
}

/// An or of masks below a power of two stays below it, and is zero exactly
/// when both sides are.
proof fn lemma_or_bound(a: u64, b: u64, n: u64)
    requires
        n <= 63,
        a < (1u64 << n),
        b < (1u64 << n),
    ensures
        (a | b) < (1u64 << n),
        ((a | b) == 0) == (a == 0 && b == 0),
{
    assert((a | b) < (1u64 << n) && (((a | b) == 0) == (a == 0 && b == 0))) by (bit_vector)
        requires
            n <= 63,
            a < (1u64 << n),
            b < (1u64 << n),
    ;
}

/// A single-bit mask below a power of two: position below `n`, never zero.
proof fn lemma_single_bound(p: u64, n: u64)
    requires
        n <= 63,
        p < n,
    ensures
        (1u64 << p) < (1u64 << n),
        (1u64 << p) != 0,
{
    assert((1u64 << p) < (1u64 << n) && (1u64 << p) != 0) by (bit_vector)
        requires
            n <= 63,
            p < n,
    ;
}

/// The empty subset: mask zero denotes no identifiers.
proof fn lemma_mask_set_zero(rows: Seq<(u64, nfa::State)>)
    ensures
        mask_set(rows, 0u64) == Set::<u64>::empty(),
{
    assert forall|id: u64| !mask_set(rows, 0u64).contains(id) by {
        if mask_set(rows, 0u64).contains(id) {
            let j = choose|j: int|
                0 <= j < rows.len() && #[trigger] bit(0u64, j) && rows[j].0 == id;
            lemma_bit_zero(j);
        }
    }
    assert(mask_set(rows, 0u64) =~= Set::<u64>::empty());
}

/// Setting one more position's bit adds exactly that position's identifier
/// to the subset a mask denotes.
proof fn lemma_mask_set_or_single(rows: Seq<(u64, nfa::State)>, m: u64, p: int)
    requires
        0 <= p < rows.len(),
        rows.len() <= 63,
    ensures
        mask_set(rows, m | (1u64 << (p as u64))) == mask_set(rows, m).insert(rows[p].0),
{
    let s = 1u64 << (p as u64);
    let lhs = mask_set(rows, m | s);
    let rhs = mask_set(rows, m).insert(rows[p].0);
    assert forall|id: u64| lhs.contains(id) implies rhs.contains(id) by {
        let j = choose|j: int| 0 <= j < rows.len() && #[trigger] bit(m | s, j) && rows[j].0 == id;
        lemma_bit_or(m, s, j);
        lemma_bit_single(p as u64, j);
        if bit(m, j) {
            assert(mask_set(rows, m).contains(id));
        } else {
            assert(j == p);
        }
    }
    assert forall|id: u64| rhs.contains(id) implies lhs.contains(id) by {
        if mask_set(rows, m).contains(id) {
            let j = choose|j: int| 0 <= j < rows.len() && #[trigger] bit(m, j) && rows[j].0 == id;
            lemma_bit_or(m, s, j);
            assert(bit(m | s, j) && rows[j].0 == id);
        } else {
            lemma_bit_single(p as u64, p);
            lemma_bit_or(m, s, p);
            assert(bit(m | s, p) && rows[p].0 == id);
        }
    }
    assert(lhs =~= rhs);
}

/// The subsets two masks denote union as the masks or.
proof fn lemma_mask_set_or(rows: Seq<(u64, nfa::State)>, a: u64, b: u64)
    ensures
        mask_set(rows, a | b) == mask_set(rows, a).union(mask_set(rows, b)),
{
    let lhs = mask_set(rows, a | b);
    let rhs = mask_set(rows, a).union(mask_set(rows, b));
    assert forall|id: u64| lhs.contains(id) implies rhs.contains(id) by {
        let j = choose|j: int| 0 <= j < rows.len() && #[trigger] bit(a | b, j) && rows[j].0 == id;
        lemma_bit_or(a, b, j);
        if bit(a, j) {
            assert(mask_set(rows, a).contains(id));
        } else {
            assert(mask_set(rows, b).contains(id));
        }
    }
    assert forall|id: u64| rhs.contains(id) implies lhs.contains(id) by {
        if mask_set(rows, a).contains(id) {
            let j = choose|j: int| 0 <= j < rows.len() && #[trigger] bit(a, j) && rows[j].0 == id;
            lemma_bit_or(a, b, j);
            assert(bit(a | b, j) && rows[j].0 == id);
        } else {
            let j = choose|j: int| 0 <= j < rows.len() && #[trigger] bit(b, j) && rows[j].0 == id;
            lemma_bit_or(a, b, j);
            assert(bit(a | b, j) && rows[j].0 == id);
        }
    }
    assert(lhs =~= rhs);
}

/// What a successful encoding means: every identifier was declared, the mask
/// stays below `2^n`, it denotes exactly the encoded identifiers, and it is
/// zero exactly for the empty list.
proof fn lemma_encode_props(rows: Seq<(u64, nfa::State)>, ids: Seq<u64>)
    requires
        unique_keys(rows),
        rows.len() <= 63,
        forall|i: int| 0 <= i < ids.len() ==> has_key(rows, #[trigger] ids[i]),
    ensures
        encode(rows, ids) is Some,
        entry_target(encode(rows, ids)) < (1u64 << (rows.len() as u64)),
        mask_set(rows, entry_target(encode(rows, ids))) == ids.to_set(),
        (entry_target(encode(rows, ids)) == 0) == (ids.len() == 0),
    decreases ids.len(),
{
    let n = rows.len() as u64;
    assert((1u64 << n) >= 1) by (bit_vector)
        requires
            n <= 63,
    ;
    if ids.len() == 0 {
        lemma_mask_set_zero(rows);
        assert(ids.to_set() =~= Set::<u64>::empty());
    } else {
        let rest = ids.drop_last();
        assert(forall|i: int| 0 <= i < rest.len() ==> has_key(rows, #[trigger] rest[i])) by {
            assert(forall|i: int| 0 <= i < rest.len() ==> rest[i] == ids[i]);
        }
        lemma_encode_props(rows, rest);
        let m0 = entry_target(encode(rows, rest));
        let last = ids.last();
        assert(has_key(rows, last));
        let p = crate::table::index_of(rows, last);
        assert(0 <= p < rows.len() && rows[p].0 == last);
        lemma_single_bound(p as u64, n);
        lemma_or_bound(m0, 1u64 << (p as u64), n);
        lemma_mask_set_or_single(rows, m0, p);
        assert(ids =~= ids.take(ids.len() - 1).push(last));
        assert(ids.take(ids.len() - 1) =~= rest);
        crate::table::lemma_push_to_set(rest, last);
        assert(mask_set(rows, m0 | (1u64 << (p as u64))) =~= ids.to_set());
    }
}

/// A list holding an undeclared identifier has no encoding.
proof fn lemma_encode_unknown(rows: Seq<(u64, nfa::State)>, ids: Seq<u64>, i: int)
    requires
        0 <= i < ids.len(),
        !has_key(rows, ids[i]),
    ensures
        encode(rows, ids) is None,
    decreases ids.len(),
{
    if i == ids.len() - 1 {
    } else {
        assert(ids.drop_last()[i] == ids[i]);
        lemma_encode_unknown(rows, ids.drop_last(), i);
    }
}

/// Computes the mask encoding of a list of identifiers over the declared
/// state list, or nothing if some identifier is not declared.
fn encode_ids(rows: &Vec<(u64, nfa::State)>, ids: &Vec<u64>) -> (r: Option<u64>)
    requires
        unique_keys(rows@),
        rows@.len() < 64,
    ensures
        r == encode(rows@, ids@),
{
    let mut acc: u64 = 0;
    proof {
        assert(ids@.take(0) =~= Seq::<u64>::empty());
    }
    let mut i: usize = 0;
    while i < ids.len()
        invariant
            unique_keys(rows@),
            rows@.len() < 64,
            i <= ids@.len(),
            Some(acc) == encode(rows@, ids@.take(i as int)),
        decreases ids@.len() - i,
    {
        match find_u64(rows, ids[i]) {
            None => {
                proof {
                    lemma_encode_unknown(rows@, ids@, i as int);
                }
                return None;
            }
            Some(p) => {
                proof {
                    lemma_key_at(rows@, p as int);
                    assert(ids@.take(i as int + 1).drop_last() =~= ids@.take(i as int));
                    assert(ids@.take(i as int + 1).last() == ids@[i as int]);
                }
                acc = acc | (1u64 << (p as u64));
            }
        }
        i = i + 1;
    }
    proof {
        assert(ids@.take(ids@.len() as int) =~= ids@);
    }
    Some(acc)
}

/// The nondeterministic reading of a deterministic state table: the same
/// states and accept flags, each single target becoming a one-element set.
pub open spec fn lift(m: Map<u64, dfa::StateModel>) -> Map<u64, nfa::StateModel> {
    Map::new(
        |id: u64| m.dom().contains(id),
        |id: u64|
            (nfa::StateModel {
                accepts: m[id].accepts,
                targets: Map::new(
                    |sym: char| m[id].targets.dom().contains(sym),
                    |sym: char| Set::<u64>::empty().insert(m[id].targets[sym]),
                ),
            }),
    )
}

impl dfa::DFA {
    /// The exact inverse lift into the nondeterministic engine: every state
    /// keeps its identifier and accept flag, every single target becomes a
    /// one-element target set, and a live current state becomes a
    /// one-element current set. No subset enumeration is involved.
    pub fn into_nfa(self) -> (r: NFA)
        requires
            self.wf(),
        ensures
            r.wf(),
            r@.states == lift(self@.states),
            match self.current {
                Some(c) => r.current@.len() == 1 && r.current@[0] == c,
                None => r.current@.len() == 0,
            },
    {
        let ghost drows = self.states@;
        let dfa::DFA { current: dcur, states: mut src } = self;
        let mut rows: Vec<(u64, nfa::State)> = Vec::new();
        while src.len() > 0
            invariant
                rows@.len() + src@.len() == drows.len(),
                src@ == drows.subrange(rows@.len() as int, drows.len() as int),
                forall|i: int|
                    0 <= i < rows@.len() ==> (#[trigger] rows@[i]).0 == drows[i].0
                        && rows@[i].1.accepts == drows[i].1.accepts,
                forall|i: int|
                    0 <= i < rows@.len() ==> targets_of_lifted(
                        (#[trigger] rows@[i]).1.transitions@,
                        drows[i].1.transitions@,
                    ),
            decreases src@.len(),
        {
            let ghost done = rows@.len() as int;
            let (id, record) = src.remove(0);
            let ghost dtr = record.transitions@;
            let dfa::State { accepts, transitions: mut tr } = record;
            let mut ntr: Vec<(char, Vec<u64>)> = Vec::new();
            while tr.len() > 0
                invariant
                    ntr@.len() + tr@.len() == dtr.len(),
                    tr@ == dtr.subrange(ntr@.len() as int, dtr.len() as int),
                    forall|e: int|
                        0 <= e < ntr@.len() ==> (#[trigger] ntr@[e]).0 == dtr[e].0 && ntr@[e].1@.len()
                            == 1 && ntr@[e].1@[0] == dtr[e].1,
                decreases tr@.len(),
            {
                let ghost edone = ntr@.len() as int;
                let (sym, t) = tr.remove(0);
                ntr.push((sym, NFA::new_state(t)));
                proof {
                    assert(dtr.subrange(edone, dtr.len() as int).remove(0) =~= dtr.subrange(
                        edone + 1,
                        dtr.len() as int,
                    ));
                }
            }
            rows.push((id, nfa::State { accepts, transitions: ntr }));
            proof {
                assert(drows.subrange(done, drows.len() as int).remove(0) =~= drows.subrange(
                    done + 1,
                    drows.len() as int,
                ));
                let nr = rows@.last().1.transitions@;
                assert(targets_of_lifted(nr, dtr)) by {
                    assert forall|sym: char| #[trigger] has_key(nr, sym) == has_key(dtr, sym) by {
                        if has_key(nr, sym) {
                            let q = choose|q: int| 0 <= q < nr.len() && nr[q].0 == sym;
                            assert(dtr[q].0 == sym);
                        }
                        if has_key(dtr, sym) {
                            let q = choose|q: int| 0 <= q < dtr.len() && dtr[q].0 == sym;
                            assert(nr[q].0 == sym);
                        }
                    }
                }
            }
        }
        let current: Vec<u64> = match dcur {
            Some(c) => NFA::new_state(c),
            None => Vec::new(),
        };
        let r = NFA { current, states: rows };
        proof {
            assert forall|i: int, i2: int| 0 <= i < i2 < r.states@.len() implies r.states@[i].0
                != r.states@[i2].0 by {
                assert(r.states@[i].0 == drows[i].0 && r.states@[i2].0 == drows[i2].0);
            }
            assert forall|k: u64| #[trigger] has_key(r.states@, k) == has_key(drows, k) by {
                if has_key(r.states@, k) {
                    let i = choose|i: int| 0 <= i < r.states@.len() && r.states@[i].0 == k;
                    assert(drows[i].0 == k);
                }
                if has_key(drows, k) {
                    let i = choose|i: int| 0 <= i < drows.len() && drows[i].0 == k;
                    assert(r.states@[i].0 == k);
                }
            }
            assert forall|k: u64| has_key(drows, k) implies #[trigger] value_of(r.states@, k)@
                == lift(dfa::states_of(drows))[k] by {
                let i = choose|i: int| 0 <= i < drows.len() && drows[i].0 == k;
                lemma_key_at(drows, i);
                lemma_key_at(r.states@, i);
                let nr = r.states@[i].1.transitions@;
                let dtr = drows[i].1.transitions@;
                assert forall|sym: char| has_key(dtr, sym) implies #[trigger] value_of(nr, sym)@
                    .to_set() == Set::<u64>::empty().insert(value_of(dtr, sym)) by {
                    let q = choose|q: int| 0 <= q < dtr.len() && dtr[q].0 == sym;
                    lemma_key_at(dtr, q);
                    lemma_key_at(nr, q);
                    assert(nr[q].1@.len() == 1 && nr[q].1@[0] == dtr[q].1);
                    assert forall|x: u64| nr[q].1@.to_set().contains(x) implies x == dtr[q].1 by {
                        let w = choose|w: int| 0 <= w < nr[q].1@.len() && nr[q].1@[w] == x;
                    }
                    assert(nr[q].1@.to_set().contains(dtr[q].1));
                    assert(nr[q].1@.to_set() =~= Set::<u64>::empty().insert(dtr[q].1));
                }
                assert forall|sym: char| #[trigger] has_key(nr, sym) == has_key(dtr, sym) by {
                    if has_key(nr, sym) {
                        let q = choose|q: int| 0 <= q < nr.len() && nr[q].0 == sym;
                        assert(dtr[q].0 == sym);
                    }
                    if has_key(dtr, sym) {
                        let q = choose|q: int| 0 <= q < dtr.len() && dtr[q].0 == sym;
                        assert(nr[q].0 == sym);
                    }
                }
                assert(nfa::targets_of(nr) =~= lift(dfa::states_of(drows))[k].targets);
            }
            assert forall|i: int|
                0 <= i < r.states@.len() implies unique_keys(
                (#[trigger] r.states@[i]).1.transitions@,
            ) by {
                let nr = r.states@[i].1.transitions@;
                let dtr = drows[i].1.transitions@;
                assert(unique_keys(dtr));
                assert forall|q: int, q2: int| 0 <= q < q2 < nr.len() implies nr[q].0
                    != nr[q2].0 by {
                    assert(nr[q].0 == dtr[q].0 && nr[q2].0 == dtr[q2].0);
                }
            }
            assert(r@.states =~~= lift(dfa::states_of(drows)));
        }
        r
    }
}

/// Whether a lifted transition table reads as its deterministic source:
/// same symbols, each target a one-element set of the source's target.
pub open spec fn targets_of_lifted(nr: Seq<(char, Vec<u64>)>, dtr: Seq<(char, u64)>) -> bool {
    &&& nr.len() == dtr.len()
    &&& forall|e: int|
        0 <= e < nr.len() ==> (#[trigger] nr[e]).0 == dtr[e].0 && nr[e].1@.len() == 1
            && nr[e].1@[0] == dtr[e].1
}


/// The union of the targets that the first `j` members of the subset `mask`
/// contribute on `sym`.
spec fn pstep(rows: Seq<(u64, nfa::State)>, mask: u64, sym: char, j: int) -> Set<u64> {
    Set::new(
        |t: u64|
            exists|j0: int|
                0 <= j0 < j && #[trigger] bit(mask, j0) && has_key(rows[j0].1.transitions@, sym)
                    && value_of(rows[j0].1.transitions@, sym)@.contains(t),
    )
}

/// What the entry fold means for a machine whose transitions stay inside the
/// declared states: the entry exists exactly when some folded member
/// mentions the symbol, and then it encodes exactly the union of the folded
/// members' targets — zero exactly for the empty union.
proof fn lemma_det_entry_closed(rows: Seq<(u64, nfa::State)>, mask: u64, sym: char, j: int)
    requires
        unique_keys(rows),
        rows.len() <= 63,
        closed(nfa::states_of(rows)),
        0 <= j <= rows.len(),
    ensures
        (det_entry(rows, mask, sym, j) is Some) == (exists|j0: int|
            0 <= j0 < j && #[trigger] bit(mask, j0) && has_key(rows[j0].1.transitions@, sym)),
        det_entry(rows, mask, sym, j) is Some ==> det_entry(rows, mask, sym, j)->0 is Some,
        det_entry(rows, mask, sym, j) is Some ==> entry_value(det_entry(rows, mask, sym, j)) < (
        1u64 << (rows.len() as u64)),
        det_entry(rows, mask, sym, j) is Some ==> mask_set(
            rows,
            entry_value(det_entry(rows, mask, sym, j)),
        ) == pstep(rows, mask, sym, j),
        det_entry(rows, mask, sym, j) is Some ==> (entry_value(det_entry(rows, mask, sym, j))
            == 0) == (pstep(rows, mask, sym, j) == Set::<u64>::empty()),
    decreases j,
{
    let model = nfa::states_of(rows);
    if j == 0 {
    } else {
        lemma_det_entry_closed(rows, mask, sym, j - 1);
        let prev = det_entry(rows, mask, sym, j - 1);
        let trj = rows[j - 1].1.transitions@;
        if bit(mask, j - 1) && has_key(trj, sym) {
            let tvec = value_of(trj, sym)@;
            let s = rows[j - 1].0;
            lemma_key_at(rows, j - 1);
            assert(model.dom().contains(s));
            assert(model[s] == rows[j - 1].1@);
            assert(model[s].targets.dom().contains(sym));
            assert(model[s].targets[sym] == tvec.to_set());
            assert forall|i: int| 0 <= i < tvec.len() implies has_key(
                rows,
                #[trigger] tvec[i],
            ) by {
                assert(model[s].targets[sym].contains(tvec[i]));
                assert(model.dom().contains(tvec[i]));
            }
            lemma_encode_props(rows, tvec);
            let enc = encode(rows, tvec);
            let ev = entry_target(enc);
            assert((ev == 0) == (tvec.to_set() == Set::<u64>::empty())) by {
                if tvec.len() > 0 {
                    assert(tvec.to_set().contains(tvec[0]));
                }
                if tvec.len() == 0 {
                    assert(tvec.to_set() =~= Set::<u64>::empty());
                }
            }
            match prev {
                None => {
                    assert(det_entry(rows, mask, sym, j) == Some(enc));
                    assert(pstep(rows, mask, sym, j) =~= tvec.to_set()) by {
                        assert forall|t: u64| pstep(rows, mask, sym, j).contains(t)
                            implies tvec.to_set().contains(t) by {
                            let j0 = choose|j0: int|
                                0 <= j0 < j && #[trigger] bit(mask, j0) && has_key(
                                    rows[j0].1.transitions@,
                                    sym,
                                ) && value_of(rows[j0].1.transitions@, sym)@.contains(t);
                            if j0 < j - 1 {
                                assert(exists|j1: int|
                                    0 <= j1 < j - 1 && #[trigger] bit(mask, j1) && has_key(
                                        rows[j1].1.transitions@,
                                        sym,
                                    ));
                                assert(false);
                            }
                        }
                        assert forall|t: u64| tvec.to_set().contains(t) implies pstep(
                            rows,
                            mask,
                            sym,
                            j,
                        ).contains(t) by {
                            assert(0 <= j - 1 < j && bit(mask, j - 1) && has_key(trj, sym)
                                && value_of(trj, sym)@.contains(t));
                        }
                    }
                }
                Some(p_inner) => {
                    let p = entry_target(p_inner);
                    assert(p_inner is Some);
                    assert(det_entry(rows, mask, sym, j) == Some(merge_enc(prev, enc)));
                    assert(merge_enc(prev, enc) == Some(p | ev));
                    lemma_mask_set_or(rows, p, ev);
                    lemma_or_bound(p, ev, rows.len() as u64);
                    assert(pstep(rows, mask, sym, j) =~= pstep(rows, mask, sym, j - 1).union(
                        tvec.to_set(),
                    )) by {
                        assert forall|t: u64| pstep(rows, mask, sym, j).contains(t)
                            implies pstep(rows, mask, sym, j - 1).union(tvec.to_set()).contains(
                            t,
                        ) by {
                            let j0 = choose|j0: int|
                                0 <= j0 < j && #[trigger] bit(mask, j0) && has_key(
                                    rows[j0].1.transitions@,
                                    sym,
                                ) && value_of(rows[j0].1.transitions@, sym)@.contains(t);
                            if j0 < j - 1 {
                                assert(pstep(rows, mask, sym, j - 1).contains(t));
                            }
                        }
                        assert forall|t: u64|
                            pstep(rows, mask, sym, j - 1).union(tvec.to_set()).contains(t)
                            implies pstep(rows, mask, sym, j).contains(t) by {
                            if pstep(rows, mask, sym, j - 1).contains(t) {
                                let j0 = choose|j0: int|
                                    0 <= j0 < j - 1 && #[trigger] bit(mask, j0) && has_key(
                                        rows[j0].1.transitions@,
                                        sym,
                                    ) && value_of(rows[j0].1.transitions@, sym)@.contains(t);
                                assert(0 <= j0 < j && bit(mask, j0) && has_key(
                                    rows[j0].1.transitions@,
                                    sym,
                                ) && value_of(rows[j0].1.transitions@, sym)@.contains(t));
                            } else {
                                assert(0 <= j - 1 < j && bit(mask, j - 1) && has_key(trj, sym)
                                    && value_of(trj, sym)@.contains(t));
                            }
                        }
                    }
                    assert((p | ev == 0) == (pstep(rows, mask, sym, j) == Set::<u64>::empty()))
                        by {
                        if p == 0 && ev == 0 {
                            assert(pstep(rows, mask, sym, j) =~= Set::<u64>::empty());
                        }
                        if pstep(rows, mask, sym, j) == Set::<u64>::empty() {
                            assert(pstep(rows, mask, sym, j - 1) =~= Set::<u64>::empty());
                            assert(tvec.to_set() =~= Set::<u64>::empty());
                        }
                    }
                }
            }
        } else {
            assert(det_entry(rows, mask, sym, j) == prev);
            assert forall|j0: int|
                0 <= j0 < j && #[trigger] bit(mask, j0) && has_key(rows[j0].1.transitions@, sym)
                implies 0 <= j0 < j - 1 by {
                if j0 == j - 1 {
                    assert(false);
                }
            }
            assert(pstep(rows, mask, sym, j) =~= pstep(rows, mask, sym, j - 1)) by {
                assert forall|t: u64| pstep(rows, mask, sym, j).contains(t) implies pstep(
                    rows,
                    mask,
                    sym,
                    j - 1,
                ).contains(t) by {
                    let j0 = choose|j0: int|
                        0 <= j0 < j && #[trigger] bit(mask, j0) && has_key(
                            rows[j0].1.transitions@,
                            sym,
                        ) && value_of(rows[j0].1.transitions@, sym)@.contains(t);
                    assert(0 <= j0 < j - 1);
                }
                assert forall|t: u64| pstep(rows, mask, sym, j - 1).contains(t) implies pstep(
                    rows,
                    mask,
                    sym,
                    j,
                ).contains(t) by {
                    let j0 = choose|j0: int|
                        0 <= j0 < j - 1 && #[trigger] bit(mask, j0) && has_key(
                            rows[j0].1.transitions@,
                            sym,
                        ) && value_of(rows[j0].1.transitions@, sym)@.contains(t);
                    assert(0 <= j0 < j && bit(mask, j0) && has_key(rows[j0].1.transitions@, sym)
                        && value_of(rows[j0].1.transitions@, sym)@.contains(t));
                }
            }
            if det_entry(rows, mask, sym, j) is Some {
                let j0 = choose|j0: int|
                    0 <= j0 < j - 1 && #[trigger] bit(mask, j0) && has_key(
                        rows[j0].1.transitions@,
                        sym,
                    );
                assert(0 <= j0 < j && bit(mask, j0) && has_key(rows[j0].1.transitions@, sym));
            }
        }
    }
}

/// The full fold's union is exactly one nondeterministic step from the
/// subset a mask denotes.
proof fn lemma_pstep_full(rows: Seq<(u64, nfa::State)>, mask: u64, sym: char)
    requires
        unique_keys(rows),
    ensures
        pstep(rows, mask, sym, rows.len() as int) == nfa::step_targets(
            nfa::states_of(rows),
            mask_set(rows, mask),
            sym,
        ),
{
    let model = nfa::states_of(rows);
    let lhs = pstep(rows, mask, sym, rows.len() as int);
    let rhs = nfa::step_targets(model, mask_set(rows, mask), sym);
    assert forall|t: u64| lhs.contains(t) implies rhs.contains(t) by {
        let j0 = choose|j0: int|
            0 <= j0 < rows.len() && #[trigger] bit(mask, j0) && has_key(
                rows[j0].1.transitions@,
                sym,
            ) && value_of(rows[j0].1.transitions@, sym)@.contains(t);
        let s = rows[j0].0;
        lemma_key_at(rows, j0);
        assert(mask_set(rows, mask).contains(s));
        assert(model.dom().contains(s) && model[s] == rows[j0].1@);
        assert(nfa::member_targets(model, s, sym).contains(t));
    }
    assert forall|t: u64| rhs.contains(t) implies lhs.contains(t) by {
        let s = choose|s: u64|
            mask_set(rows, mask).contains(s) && #[trigger] nfa::member_targets(
                model,
                s,
                sym,
            ).contains(t);
        let j0 = choose|j0: int|
            0 <= j0 < rows.len() && #[trigger] bit(mask, j0) && rows[j0].0 == s;
        lemma_key_at(rows, j0);
        assert(model.dom().contains(s) && model[s] == rows[j0].1@);
        assert(model[s].targets.dom().contains(sym));
        assert(has_key(rows[j0].1.transitions@, sym));
        assert(value_of(rows[j0].1.transitions@, sym)@.contains(t));
    }
    assert(lhs =~= rhs);
}

/// The determinized accept flag is existential acceptance over the subset.
proof fn lemma_det_accepts_sem(rows: Seq<(u64, nfa::State)>, mask: u64)
    requires
        unique_keys(rows),
    ensures
        det_accepts(rows, mask) == nfa::accepting(nfa::states_of(rows), mask_set(rows, mask)),
{
    let model = nfa::states_of(rows);
    if det_accepts(rows, mask) {
        let j0 = choose|j0: int|
            0 <= j0 < rows.len() && #[trigger] bit(mask, j0) && rows[j0].1.accepts;
        let s = rows[j0].0;
        lemma_key_at(rows, j0);
        assert(mask_set(rows, mask).contains(s));
        assert(model.dom().contains(s) && model[s].accepts);
    }
    if nfa::accepting(model, mask_set(rows, mask)) {
        let s = choose|s: u64|
            mask_set(rows, mask).contains(s) && model.dom().contains(s) && model[s].accepts;
        let j0 = choose|j0: int|
            0 <= j0 < rows.len() && #[trigger] bit(mask, j0) && rows[j0].0 == s;
        lemma_key_at(rows, j0);
        assert(model[s] == rows[j0].1@);
        assert(det_accepts(rows, mask));
    }
}

/// The simulation relation of the equivalence proof: the deterministic
/// configuration is dead exactly when the nondeterministic set is empty, and
/// otherwise it is the declared subset state denoting that set.
pub open spec fn det_rel(rows: Seq<(u64, nfa::State)>, cur: Set<u64>, dcur: Option<u64>) -> bool {
    if cur == Set::<u64>::empty() {
        dcur is None
    } else {
        &&& dcur is Some
        &&& 1 <= dcur->0 < (1u64 << (rows.len() as u64))
        &&& mask_set(rows, dcur->0) == cur
    }
}

/// One step preserves the simulation relation.
proof fn lemma_det_step(rows: Seq<(u64, nfa::State)>, mask: u64, sym: char)
    requires
        unique_keys(rows),
        rows.len() <= 63,
        closed(nfa::states_of(rows)),
        1 <= mask < (1u64 << (rows.len() as u64)),
    ensures
        det_rel(
            rows,
            nfa::step_targets(nfa::states_of(rows), mask_set(rows, mask), sym),
            dfa::step_of(det_states(rows), Some(mask), sym),
        ),
{
    let model = nfa::states_of(rows);
    let d = det_states(rows);
    let c2 = nfa::step_targets(model, mask_set(rows, mask), sym);
    let nlen = rows.len() as int;
    lemma_det_entry_closed(rows, mask, sym, nlen);
    lemma_pstep_full(rows, mask, sym);
    assert(d.dom().contains(mask));
    assert(d[mask].targets == det_targets(rows, mask));
    let entry = det_entry(rows, mask, sym, nlen);
    match entry {
        None => {
            assert(!d[mask].targets.dom().contains(sym));
            assert(dfa::step_of(d, Some(mask), sym) is None);
            assert(c2 =~= Set::<u64>::empty()) by {
                assert forall|t: u64| !pstep(rows, mask, sym, nlen).contains(t) by {
                    if pstep(rows, mask, sym, nlen).contains(t) {
                        let j0 = choose|j0: int|
                            0 <= j0 < nlen && #[trigger] bit(mask, j0) && has_key(
                                rows[j0].1.transitions@,
                                sym,
                            ) && value_of(rows[j0].1.transitions@, sym)@.contains(t);
                        assert(exists|j1: int|
                            0 <= j1 < nlen && #[trigger] bit(mask, j1) && has_key(
                                rows[j1].1.transitions@,
                                sym,
                            ));
                        assert(false);
                    }
                }
            }
        }
        Some(_) => {
            let m2 = entry_value(entry);
            assert(d[mask].targets.dom().contains(sym));
            assert(d[mask].targets[sym] == m2);
            assert(mask_set(rows, m2) == c2);
            if m2 == 0 {
                assert(c2 =~= Set::<u64>::empty()) by {
                    assert(pstep(rows, mask, sym, nlen) == Set::<u64>::empty());
                }
                assert(!d.dom().contains(m2));
                assert(dfa::step_of(d, Some(mask), sym) is None);
            } else {
                assert(1 <= m2 < (1u64 << (rows.len() as u64)));
                assert(d.dom().contains(m2));
                assert(dfa::step_of(d, Some(mask), sym) == Some(m2));
                assert(c2 != Set::<u64>::empty()) by {
                    if pstep(rows, mask, sym, nlen) == Set::<u64>::empty() {
                        assert(m2 == 0);
                    }
                }
            }
        }
    }
}

/// The simulation relation carries through a whole run and equates
/// acceptance at its end.
proof fn lemma_det_run(rows: Seq<(u64, nfa::State)>, cur: Set<u64>, dcur: Option<u64>, w: Seq<char>)
    requires
        unique_keys(rows),
        rows.len() <= 63,
        closed(nfa::states_of(rows)),
        det_rel(rows, cur, dcur),
    ensures
        det_rel(
            rows,
            nfa::run_states(nfa::states_of(rows), cur, w),
            dfa::run_state(det_states(rows), dcur, w),
        ),
        nfa::accepting(nfa::states_of(rows), nfa::run_states(nfa::states_of(rows), cur, w))
            == dfa::accepting(det_states(rows), dfa::run_state(det_states(rows), dcur, w)),
    decreases w.len(),
{
    let model = nfa::states_of(rows);
    let d = det_states(rows);
    if w.len() == 0 {
        if cur == Set::<u64>::empty() {
            assert(!nfa::accepting(model, cur)) by {
                if nfa::accepting(model, cur) {
                    let s = choose|s: u64|
                        cur.contains(s) && model.dom().contains(s) && model[s].accepts;
                    assert(false);
                }
            }
            assert(!dfa::accepting(d, dcur));
        } else {
            let mk = dcur->0;
            lemma_det_accepts_sem(rows, mk);
            assert(d.dom().contains(mk));
            assert(dfa::accepting(d, dcur) == d[mk].accepts);
            assert(d[mk].accepts == det_accepts(rows, mk));
            assert(nfa::accepting(model, mask_set(rows, mk)) == nfa::accepting(model, cur));
        }
    } else {
        let sym = w[0];
        let rest = w.subrange(1, w.len() as int);
        if cur == Set::<u64>::empty() {
            nfa::lemma_dead_absorbs(model, w);
            assert(nfa::step_targets(model, Set::<u64>::empty(), sym) == Set::<u64>::empty());
            assert(dfa::step_of(d, dcur, sym) is None);
            lemma_det_run(rows, Set::<u64>::empty(), None, rest);
            assert(nfa::run_states(model, cur, w) == nfa::run_states(
                model,
                nfa::step_targets(model, cur, sym),
                rest,
            ));
        } else {
            let mk = dcur->0;
            lemma_det_step(rows, mk, sym);
            let c2 = nfa::step_targets(model, mask_set(rows, mk), sym);
            assert(c2 == nfa::step_targets(model, cur, sym));
            lemma_det_run(rows, c2, dfa::step_of(d, Some(mk), sym), rest);
            assert(nfa::run_states(model, cur, w) == nfa::run_states(model, c2, rest));
            assert(dfa::run_state(d, dcur, w) == dfa::run_state(
                d,
                dfa::step_of(d, Some(mk), sym),
                rest,
            ));
        }
    }
}

/// Language equivalence under determinization: a machine whose current set
/// and transition targets stay inside its declared states accepts an input
/// sequence exactly when its determinization — any deterministic machine
/// whose model is the powerset construction's output — accepts it.
pub proof fn lemma_determinize_preserves_language(n: NFA, d: dfa::DFA, w: Seq<char>)
    requires
        n.wf(),
        n.states@.len() < 64,
        closed(n@.states),
        n@.current.subset_of(n@.states.dom()),
        d@.states == det_states(n.states@),
        d@.current == det_current(n.states@, n.current@),
    ensures
        nfa::accepting(n@.states, nfa::run_states(n@.states, n@.current, w)) == dfa::accepting(
            d@.states,
            dfa::run_state(d@.states, d@.current, w),
        ),
{
    let rows = n.states@;
    let cur = n.current@;
    assert forall|i: int| 0 <= i < cur.len() implies has_key(rows, #[trigger] cur[i]) by {
        assert(n@.current.contains(cur[i]));
        assert(n@.states.dom().contains(cur[i]));
    }
    lemma_encode_props(rows, cur);
    let m0 = entry_target(encode(rows, cur));
    assert(det_rel(rows, n@.current, d@.current)) by {
        if m0 == 0 {
            assert(cur.len() == 0);
            assert(cur.to_set() =~= Set::<u64>::empty());
        } else {
            assert(d@.current == Some(m0));
            assert(mask_set(rows, m0) == cur.to_set());
            assert(cur.len() > 0);
            assert(cur.to_set().contains(cur[0]));
            assert(cur.to_set() != Set::<u64>::empty());
        }
    }
    lemma_det_run(rows, n@.current, d@.current, w);
}

/// Whether a table under construction holds, for every symbol, exactly the
/// entry of the fold over the first `j` declared states.
spec fn tbl_matches(
    rows: Seq<(u64, nfa::State)>,
    mask: u64,
    j: int,
    tbl: Seq<(char, Option<u64>)>,
) -> bool {
    &&& forall|sym: char| #[trigger] has_key(tbl, sym) == (det_entry(rows, mask, sym, j) is Some)
    &&& forall|sym: char|
        #[trigger] has_key(tbl, sym) ==> Some(value_of(tbl, sym)) == det_entry(rows, mask, sym, j)
}

/// The fold entry with member `j` folded in only for the symbols among the
/// first `e` rows of its table.
spec fn det_entry_mid(
    rows: Seq<(u64, nfa::State)>,
    mask: u64,
    sym: char,
    j: int,
    e: int,
) -> Option<Option<u64>> {
    if exists|idx: int| 0 <= idx < e && (#[trigger] rows[j].1.transitions@[idx]).0 == sym {
        Some(
            merge_enc(
                det_entry(rows, mask, sym, j),
                encode(rows, value_of(rows[j].1.transitions@, sym)@),
            ),
        )
    } else {
        det_entry(rows, mask, sym, j)
    }
}

/// Whether a table under construction matches the fold mid-member.
spec fn tbl_matches_mid(
    rows: Seq<(u64, nfa::State)>,
    mask: u64,
    j: int,
    e: int,
    tbl: Seq<(char, Option<u64>)>,
) -> bool {
    &&& forall|sym: char|
        #[trigger] has_key(tbl, sym) == (det_entry_mid(rows, mask, sym, j, e) is Some)
    &&& forall|sym: char|
        #[trigger] has_key(tbl, sym) ==> Some(value_of(tbl, sym)) == det_entry_mid(
            rows,
            mask,
            sym,
            j,
            e,
        )
}

impl NFA {
    /// Converts this machine into an equivalent deterministic one by the
    /// eager powerset construction: one deterministic state per non-empty
    /// subset of the declared states — reachable or not — whose identifier
    /// is the subset's bit mask over the declared state list; the accept
    /// flag is existential over the subset, each transition entry is the
    /// encoded union of the members' target sets, and the initial current is
    /// the mask of this machine's current set, dead when that set is empty
    /// or reaches outside the declared states.
    pub fn into_dfa(self) -> (r: dfa::DFA)
        requires
            self.wf(),
            self.states@.len() < 64,
        ensures
            r.wf(),
            r@.states == det_states(self.states@),
            r@.current == det_current(self.states@, self.current@),
    {
        let ghost nrows = self.states@;
        let n = self.states.len();
        let pow: u64 = 1u64 << (n as u64);
        proof {
            let nn = n as u64;
            assert((1u64 << nn) >= 1) by (bit_vector)
                requires
                    nn < 64,
            ;
        }
        let mut rows: Vec<(u64, dfa::State)> = Vec::new();
        let mut mask: u64 = 1;
        while mask < pow
            invariant
                self.wf(),
                self.states@ == nrows,
                n == nrows.len(),
                n < 64,
                pow == 1u64 << (n as u64),
                1 <= mask <= pow,
                rows@.len() == mask - 1,
                forall|k: int| 0 <= k < rows@.len() ==> (#[trigger] rows@[k]).0 == k + 1,
                forall|k: int|
                    0 <= k < rows@.len() ==> unique_keys((#[trigger] rows@[k]).1.transitions@),
                forall|k: int|
                    0 <= k < rows@.len() ==> (#[trigger] rows@[k]).1.accepts == det_accepts(
                        nrows,
                        (k + 1) as u64,
                    ),
                forall|k: int|
                    0 <= k < rows@.len() ==> dfa::targets_of((#[trigger] rows@[k]).1.transitions@)
                        == det_targets(nrows, (k + 1) as u64),
            decreases pow - mask,
        {
            let mut acc = false;
            let mut j: usize = 0;
            while j < n
                invariant
                    self.wf(),
                    self.states@ == nrows,
                    n == nrows.len(),
                    n < 64,
                    j <= n,
                    acc == (exists|j0: int|
                        0 <= j0 < j && #[trigger] bit(mask, j0) && nrows[j0].1.accepts),
                decreases n - j,
            {
                let ghost acc0 = acc;
                if (mask >> (j as u64)) & 1u64 == 1u64 {
                    if self.states[j].1.accepts {
                        acc = true;
                    }
                }
                proof {
                    assert(acc == (exists|j0: int|
                        0 <= j0 < j + 1 && #[trigger] bit(mask, j0) && nrows[j0].1.accepts)) by {
                        if acc {
                            if acc0 {
                                let j0 = choose|j0: int|
                                    0 <= j0 < j && #[trigger] bit(mask, j0) && nrows[j0].1.accepts;
                                assert(0 <= j0 < j + 1 && bit(mask, j0) && nrows[j0].1.accepts);
                            } else {
                                assert(bit(mask, j as int) && nrows[j as int].1.accepts);
                            }
                        } else {
                            if exists|j0: int|
                                0 <= j0 < j + 1 && #[trigger] bit(mask, j0)
                                    && nrows[j0].1.accepts {
                                let j0 = choose|j0: int|
                                    0 <= j0 < j + 1 && #[trigger] bit(mask, j0)
                                        && nrows[j0].1.accepts;
                                if j0 < j {
                                    assert(acc0);
                                } else {
                                    assert(bit(mask, j as int));
                                    assert(false);
                                }
                            }
                        }
                    }
                }
                j = j + 1;
            }
            let mut tbl: Vec<(char, Option<u64>)> = Vec::new();
            let mut j: usize = 0;
            while j < n
                invariant
                    self.wf(),
                    self.states@ == nrows,
                    n == nrows.len(),
                    n < 64,
                    j <= n,
                    unique_keys(tbl@),
                    tbl_matches(nrows, mask, j as int, tbl@),
                decreases n - j,
            {
                if (mask >> (j as u64)) & 1u64 == 1u64 {
                    proof {
                        assert(bit(mask, j as int));
                        assert(unique_keys(nrows[j as int].1.transitions@));
                    }
                    let ghost trj = nrows[j as int].1.transitions@;
                    let ne = self.states[j].1.transitions.len();
                    let mut e: usize = 0;
                    while e < ne
                        invariant
                            self.wf(),
                            self.states@ == nrows,
                            n == nrows.len(),
                            n < 64,
                            j < n,
                            bit(mask, j as int),
                            trj == nrows[j as int].1.transitions@,
                            unique_keys(trj),
                            ne == trj.len(),
                            e <= ne,
                            unique_keys(tbl@),
                            tbl_matches_mid(nrows, mask, j as int, e as int, tbl@),
                        decreases ne - e,
                    {
                        let sym = self.states[j].1.transitions[e].0;
                        let enc = encode_ids(&self.states, &self.states[j].1.transitions[e].1);
                        proof {
                            lemma_key_at(trj, e as int);
                            assert(det_entry_mid(nrows, mask, sym, j as int, e as int)
                                == det_entry(nrows, mask, sym, j as int)) by {
                                if exists|idx: int|
                                    0 <= idx < e && (#[trigger] trj[idx]).0 == sym {
                                    let idx = choose|idx: int|
                                        0 <= idx < e && (#[trigger] trj[idx]).0 == sym;
                                    assert(trj[idx].0 != trj[e as int].0);
                                    assert(false);
                                }
                            }
                            assert(det_entry_mid(nrows, mask, sym, j as int, e as int + 1)
                                == Some(
                                merge_enc(
                                    det_entry(nrows, mask, sym, j as int),
                                    encode(nrows, value_of(trj, sym)@),
                                ),
                            )) by {
                                assert((trj[e as int]).0 == sym);
                            }
                            assert(value_of(trj, sym) == trj[e as int].1);
                        }
                        let ghost tbl0 = tbl@;
                        match find_char(&tbl, sym) {
                            Some(idx) => {
                                proof {
                                    lemma_key_at(tbl0, idx as int);
                                }
                                let prev = tbl[idx].1;
                                let merged: Option<u64> = match (prev, enc) {
                                    (Some(a), Some(b)) => Some(a | b),
                                    _ => None,
                                };
                                proof {
                                    crate::table::lemma_update_row(tbl0, idx as int, merged);
                                    assert(merged == merge_enc(Some(prev), enc));
                                }
                                tbl.set(idx, (sym, merged));
                            }
                            None => {
                                proof {
                                    crate::table::lemma_push_row(tbl0, sym, enc);
                                    assert(merge_enc(None, enc) == enc);
                                }
                                tbl.push((sym, enc));
                            }
                        }
                        proof {
                            assert forall|sym2: char| sym2 != sym implies det_entry_mid(
                                nrows,
                                mask,
                                sym2,
                                j as int,
                                e as int + 1,
                            ) == det_entry_mid(nrows, mask, sym2, j as int, e as int) by {
                                if exists|idx: int|
                                    0 <= idx < e + 1 && (#[trigger] trj[idx]).0 == sym2 {
                                    let idx = choose|idx: int|
                                        0 <= idx < e + 1 && (#[trigger] trj[idx]).0 == sym2;
                                    assert(idx != e);
                                    assert(0 <= idx < e && trj[idx].0 == sym2);
                                }
                                if exists|idx: int|
                                    0 <= idx < e && (#[trigger] trj[idx]).0 == sym2 {
                                    let idx = choose|idx: int|
                                        0 <= idx < e && (#[trigger] trj[idx]).0 == sym2;
                                    assert(0 <= idx < e + 1 && trj[idx].0 == sym2);
                                }
                            }
                            assert forall|sym2: char| #[trigger] has_key(tbl@, sym2)
                                == (det_entry_mid(nrows, mask, sym2, j as int, e as int + 1)
                                is Some) by {
                                if sym2 != sym {
                                    assert(has_key(tbl@, sym2) == has_key(tbl0, sym2));
                                }
                            }
                            assert forall|sym2: char| #[trigger] has_key(tbl@, sym2) implies Some(
                                value_of(tbl@, sym2),
                            ) == det_entry_mid(nrows, mask, sym2, j as int, e as int + 1) by {
                                if sym2 != sym {
                                    assert(value_of(tbl@, sym2) == value_of(tbl0, sym2));
                                }
                            }
                        }
                        e = e + 1;
                    }
                    proof {
                        assert forall|sym2: char| det_entry_mid(
                            nrows,
                            mask,
                            sym2,
                            j as int,
                            ne as int,
                        ) == det_entry(nrows, mask, sym2, j as int + 1) by {
                            if has_key(trj, sym2) {
                                let idx = crate::table::index_of(trj, sym2);
                                assert(0 <= idx < ne && (trj[idx]).0 == sym2);
                            }
                            if exists|idx: int| 0 <= idx < ne && (#[trigger] trj[idx]).0 == sym2 {
                                let idx = choose|idx: int|
                                    0 <= idx < ne && (#[trigger] trj[idx]).0 == sym2;
                                assert(has_key(trj, sym2));
                            }
                        }
                    }
                } else {
                    proof {
                        assert(!bit(mask, j as int));
                    }
                }
                j = j + 1;
            }
            let mut dtr: Vec<(char, u64)> = Vec::new();
            let mut q: usize = 0;
            while q < tbl.len()
                invariant
                    q <= tbl@.len(),
                    dtr@.len() == q,
                    forall|x: int|
                        0 <= x < q ==> (#[trigger] dtr@[x]).0 == tbl@[x].0 && dtr@[x].1
                            == entry_target(tbl@[x].1),
                decreases tbl@.len() - q,
            {
                let (sym, v) = tbl[q];
                let tv: u64 = match v {
                    Some(m2) => m2,
                    None => 0,
                };
                dtr.push((sym, tv));
                q = q + 1;
            }
            proof {
                assert forall|x: int, y: int| 0 <= x < y < dtr@.len() implies dtr@[x].0
                    != dtr@[y].0 by {
                    assert(dtr@[x].0 == tbl@[x].0 && dtr@[y].0 == tbl@[y].0);
                }
                assert forall|sym: char| #[trigger] has_key(dtr@, sym) == has_key(tbl@, sym) by {
                    if has_key(dtr@, sym) {
                        let x = choose|x: int| 0 <= x < dtr@.len() && dtr@[x].0 == sym;
                        assert(tbl@[x].0 == sym);
                    }
                    if has_key(tbl@, sym) {
                        let x = choose|x: int| 0 <= x < tbl@.len() && tbl@[x].0 == sym;
                        assert(dtr@[x].0 == sym);
                    }
                }
                assert forall|sym: char| has_key(tbl@, sym) implies #[trigger] value_of(dtr@, sym)
                    == entry_target(value_of(tbl@, sym)) by {
                    let x = crate::table::index_of(tbl@, sym);
                    lemma_key_at(tbl@, x);
                    lemma_key_at(dtr@, x);
                }
                assert(dfa::targets_of(dtr@) =~= det_targets(nrows, mask));
            }
            rows.push((mask, dfa::State { accepts: acc, transitions: dtr }));
            mask = mask + 1;
        }
        let cur_enc = encode_ids(&self.states, &self.current);
        let current: Option<u64> = match cur_enc {
            None => None,
            Some(m2) => if m2 == 0 {
                None
            } else {
                Some(m2)
            },
        };
        let r = dfa::DFA { current, states: rows };
        proof {
            assert forall|x: int, y: int| 0 <= x < y < r.states@.len() implies r.states@[x].0
                != r.states@[y].0 by {
                assert(r.states@[x].0 == x + 1 && r.states@[y].0 == y + 1);
            }
            assert forall|k2: u64| #[trigger] has_key(r.states@, k2) == (1 <= k2 < pow) by {
                if has_key(r.states@, k2) {
                    let x = choose|x: int| 0 <= x < r.states@.len() && r.states@[x].0 == k2;
                    assert(r.states@[x].0 == x + 1);
                }
                if 1 <= k2 < pow {
                    let x = k2 - 1;
                    assert(r.states@[x as int].0 == k2);
                }
            }
            assert forall|k2: u64| 1 <= k2 < pow implies #[trigger] value_of(r.states@, k2)@
                == det_states(nrows)[k2] by {
                let x = (k2 - 1) as int;
                assert(r.states@[x].0 == k2);
                lemma_key_at(r.states@, x);
            }
            assert(r@.states =~~= det_states(nrows));
        }
        r
    }

    /// The determinized identifier that a set of this machine's states
    /// denotes: the canonical subset encoding used by the powerset
    /// construction, or nothing if the set is empty or holds an undeclared
    /// identifier.
    pub fn subset_id(&self, ids: &Vec<u64>) -> (r: Option<u64>)
        requires
            self.wf(),
            self.states@.len() < 64,
        ensures
            r == det_current(self.states@, ids@),
    {
        match encode_ids(&self.states, ids) {
            None => None,
            Some(m) => if m == 0 {
                None
            } else {
                Some(m)
            },
        }
    }
}

} // verus!
