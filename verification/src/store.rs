//! The durable side: a registry of player identities and a ledger of
//! cumulative wins and losses.
//!
//! In memory the two stores live as one list of entries in
//! registration order: the registry is the list of names, the ledger
//! the counters beside them. A freshly registered identity simply has
//! zero counters, which is how the two stores stay consistent: a name
//! can never appear in the ledger without appearing in the registry.
//!
//! On disk they are two independent line-oriented text files. This
//! module parses and renders those byte texts; opening, reading and
//! writing the actual files is the caller's concern, so every
//! operation here is pure and total over plain bytes.
//!
//! Identities are compared after trimming ASCII whitespace and folding
//! ASCII case; the name is stored as given (trimmed only), so the
//! registered spelling is what later shows in the ledger.

use vstd::prelude::*;

use crate::text::bytes_eq;
use crate::text::copy_range;
use crate::text::fmt_u64;
use crate::text::is_digit;
use crate::text::is_sep_byte;
use crate::text::is_valid_name;
use crate::text::lemma_dec_digits;
use crate::text::lemma_fields_sep;
use crate::text::lemma_fields_token;
use crate::text::lemma_fields_valid;
use crate::text::lemma_lines_concat;
use crate::text::lemma_parse_dec;
use crate::text::lower_bytes;
use crate::text::normalize;
use crate::text::parse_u64;
use crate::text::push_all;
use crate::text::seq_views;
use crate::text::spec_dec;
use crate::text::spec_fields;
use crate::text::spec_lines;
use crate::text::spec_lower;
use crate::text::spec_norm;
use crate::text::spec_parse_u64;
use crate::text::spec_trim;
use crate::text::spec_trim_back;
use crate::text::spec_trim_front;
use crate::text::split_fields;
use crate::text::split_lines;
use crate::text::trim_bytes;
use crate::text::valid_name;

verus! {

/// One row of the ledger: a registered identity with its cumulative
/// results. Wins and losses only ever grow, by exactly one per
/// recorded match.
pub struct LedgerEntry {
    pub name: Vec<u8>,
    pub wins: u64,
    pub losses: u64,
}

/// The mathematical image of a ledger row.
pub ghost struct EntryView {
    pub name: Seq<u8>,
    pub wins: u64,
    pub losses: u64,
}

impl View for LedgerEntry {
    type V = EntryView;

    open spec fn view(&self) -> EntryView {
        EntryView { name: self.name@, wins: self.wins, losses: self.losses }
    }
}

/// The recoverable conditions the store can raise. Each carries the
/// offending trimmed name or names; the store itself is never changed
/// by a failed call.
#[derive(Debug)]
pub enum StoreError {
    /// A name to be registered is already present, under trimmed,
    /// case-folded comparison — or the two names of one call collide.
    DuplicateIdentity(Vec<Vec<u8>>),
    /// A name that a lookup or a result recording needs is absent.
    UnknownIdentity(Vec<Vec<u8>>),
    /// A name that, after trimming, is empty or still holds a
    /// separator byte, and so could not survive the text stores.
    InvalidIdentity(Vec<u8>),
}

/// Internal soundness of a store image: every name could come from a
/// store file, and no two names collide under normalized comparison.
pub open spec fn store_wf(v: Seq<EntryView>) -> bool {
    &&& forall|i: int| 0 <= i < v.len() ==> valid_name(#[trigger] v[i].name)
    &&& forall|i: int, j: int|
        #![trigger spec_norm(v[i].name), spec_norm(v[j].name)]
        0 <= i < j < v.len() ==> spec_norm(v[i].name) != spec_norm(v[j].name)
}

/// Some entry's name normalizes to `key`.
pub open spec fn contains_norm(v: Seq<EntryView>, key: Seq<u8>) -> bool {
    exists|i: int| 0 <= i < v.len() && spec_norm(#[trigger] v[i].name) == key
}

/// The index of the entry whose name normalizes to `key`; under
/// [`store_wf`] there is at most one.
pub open spec fn index_of_norm(v: Seq<EntryView>, key: Seq<u8>) -> int {
    choose|i: int| 0 <= i < v.len() && spec_norm(#[trigger] v[i].name) == key
}

/// A valid name has no blank bytes at all, so trimming leaves it
/// alone and its normal form is just its case-folded self.
pub proof fn lemma_norm_valid(s: Seq<u8>)
    requires
        valid_name(s),
    ensures
        spec_trim(s) == s,
        spec_norm(s) == spec_lower(s),
{
    assert(spec_trim_front(s) == s);
    assert(spec_trim_back(s) == s);
}

/// Under [`store_wf`], an entry whose name normalizes to `key` is the
/// entry [`index_of_norm`] names.
pub proof fn lemma_index_unique(v: Seq<EntryView>, key: Seq<u8>, i: int)
    requires
        store_wf(v),
        0 <= i < v.len(),
        spec_norm(v[i].name) == key,
    ensures
        contains_norm(v, key),
        index_of_norm(v, key) == i,
{
    let j = index_of_norm(v, key);
    if j != i {
        if j < i {
            assert(spec_norm(v[j].name) != spec_norm(v[i].name));
        } else {
            assert(spec_norm(v[i].name) != spec_norm(v[j].name));
        }
    }
}

/// The names that block a registration of the raw pair `(a, b)`
/// against the store image `v`: `a`'s trimmed form when it is already
/// present, and `b`'s when it is already present or collides with `a`.
pub open spec fn reg_conflicts(v: Seq<EntryView>, a: Seq<u8>, b: Seq<u8>) -> Seq<Seq<u8>> {
    (if contains_norm(v, spec_norm(a)) {
        seq![spec_trim(a)]
    } else {
        Seq::empty()
    }) + (if contains_norm(v, spec_norm(b)) || spec_norm(a) == spec_norm(b) {
        seq![spec_trim(b)]
    } else {
        Seq::empty()
    })
}

/// Registration succeeds exactly when both trimmed names are usable,
/// neither is present yet, and the two do not collide.
pub open spec fn spec_register_ok(v: Seq<EntryView>, a: Seq<u8>, b: Seq<u8>) -> bool {
    &&& valid_name(spec_trim(a))
    &&& valid_name(spec_trim(b))
    &&& !contains_norm(v, spec_norm(a))
    &&& !contains_norm(v, spec_norm(b))
    &&& spec_norm(a) != spec_norm(b)
}

/// The store image after a successful registration: both names
/// appended, in call order, with zero counters.
pub open spec fn spec_register(v: Seq<EntryView>, a: Seq<u8>, b: Seq<u8>) -> Seq<EntryView> {
    v + seq![
        EntryView { name: spec_trim(a), wins: 0, losses: 0 },
        EntryView { name: spec_trim(b), wins: 0, losses: 0 },
    ]
}

/// The raw names among `(a, b)` that a lookup cannot resolve.
pub open spec fn missing_names(v: Seq<EntryView>, a: Seq<u8>, b: Seq<u8>) -> Seq<Seq<u8>> {
    (if contains_norm(v, spec_norm(a)) {
        Seq::empty()
    } else {
        seq![spec_trim(a)]
    }) + (if contains_norm(v, spec_norm(b)) {
        Seq::empty()
    } else {
        seq![spec_trim(b)]
    })
}

/// The store image after a result is recorded: one win for the entry
/// `winner` resolves to, one loss for the entry `loser` resolves to.
/// (Both keys are normalized raw names and must resolve.)
pub open spec fn spec_record(v: Seq<EntryView>, kw: Seq<u8>, kl: Seq<u8>) -> Seq<EntryView>
    recommends
        contains_norm(v, kw),
        contains_norm(v, kl),
{
    let iw = index_of_norm(v, kw);
    let v1 = v.update(
        iw,
        EntryView { name: v[iw].name, wins: (v[iw].wins + 1) as u64, losses: v[iw].losses },
    );
    let il = index_of_norm(v1, kl);
    v1.update(
        il,
        EntryView { name: v1[il].name, wins: v1[il].wins, losses: (v1[il].losses + 1) as u64 },
    )
}

/// Whether one entry's counters can still grow.
pub open spec fn entry_counters_ok(e: EntryView) -> bool {
    e.wins < u64::MAX && e.losses < u64::MAX
}

/// Whether every counter in the store can still grow: what recording
/// one more result needs.
pub open spec fn counters_ok(v: Seq<EntryView>) -> bool {
    forall|i: int| 0 <= i < v.len() ==> entry_counters_ok(#[trigger] v[i])
}

/// How the registry file reads, line by line from the top: blank
/// lines are ignored; a line whose trimmed form is no usable name, or
/// repeats an earlier name under normalized comparison, is skipped
/// and reported by its position; every other line registers its
/// trimmed name with zero counters.
pub open spec fn reg_load(lines: Seq<Seq<u8>>) -> (Seq<EntryView>, Seq<int>)
    decreases lines.len(),
{
    if lines.len() == 0 {
        (Seq::empty(), Seq::empty())
    } else {
        let r = reg_load(lines.drop_last());
        let idx = lines.len() - 1;
        let t = spec_trim(lines.last());
        if t.len() == 0 {
            r
        } else if !valid_name(t) {
            (r.0, r.1.push(idx as int))
        } else if contains_norm(r.0, spec_lower(t)) {
            (r.0, r.1.push(idx as int))
        } else {
            (r.0.push(EntryView { name: t, wins: 0, losses: 0 }), r.1)
        }
    }
}

/// How one ledger line reads: at least four fields — rank, name,
/// wins, losses — with the stored rank ignored (it is recomputed at
/// write time) and both counters plain decimal numbers.
pub open spec fn led_row(line: Seq<u8>) -> Option<EntryView> {
    let fs = spec_fields(line);
    if fs.len() >= 4 {
        match (spec_parse_u64(fs[2]), spec_parse_u64(fs[3])) {
            (Some(w), Some(l)) => Some(EntryView { name: fs[1], wins: w, losses: l }),
            _ => None,
        }
    } else {
        None
    }
}

/// Reconciling one read ledger row: a row naming a known identity
/// sets that identity's counters; a row naming an unknown one appends
/// it — the registry grows to cover the ledger, never the reverse.
pub open spec fn led_apply(es: Seq<EntryView>, e: EntryView) -> Seq<EntryView> {
    if contains_norm(es, spec_lower(e.name)) {
        let i = index_of_norm(es, spec_lower(e.name));
        es.update(i, EntryView { name: es[i].name, wins: e.wins, losses: e.losses })
    } else {
        es.push(e)
    }
}

/// How the ledger file reads, line by line from the top: the first
/// line is the header and carries no data; blank lines are ignored; a
/// line that does not read as a row is skipped and reported by its
/// position; each readable row is reconciled in order, a later row
/// for the same identity overriding an earlier one.
pub open spec fn led_load(es0: Seq<EntryView>, lines: Seq<Seq<u8>>) -> (Seq<EntryView>, Seq<int>)
    decreases lines.len(),
{
    if lines.len() == 0 {
        (es0, Seq::empty())
    } else {
        let r = led_load(es0, lines.drop_last());
        let idx = lines.len() - 1;
        let line = lines.last();
        if idx == 0 {
            r
        } else if spec_fields(line).len() == 0 {
            r
        } else {
            match led_row(line) {
                Some(e) => (led_apply(r.0, e), r.1),
                None => (r.0, r.1.push(idx as int)),
            }
        }
    }
}

/// The lines of a store file that may be missing: a missing file
/// reads as no lines at all, which is not an error on a first run.
pub open spec fn file_lines(t: Option<&[u8]>) -> Seq<Seq<u8>> {
    match t {
        Some(s) => spec_lines(s@),
        None => Seq::empty(),
    }
}

/// Both stores read and reconciled: the registry first, the ledger
/// against it; the two skip lists report what could not be used.
pub open spec fn spec_load(reg: Seq<Seq<u8>>, led: Seq<Seq<u8>>) -> (
    Seq<EntryView>,
    Seq<int>,
    Seq<int>,
) {
    let r1 = reg_load(reg);
    let r2 = led_load(r1.0, led);
    (r2.0, r1.1, r2.1)
}

/// The line positions a load skipped, as mathematical integers.
pub open spec fn skipped_view(v: Seq<usize>) -> Seq<int> {
    v.map_values(|x: usize| x as int)
}

/// Stable descending insertion: `e` goes after every row with at
/// least as many wins, so earlier-registered rows keep their place
/// among equals.
pub open spec fn spec_insert_ranked(rows: Seq<EntryView>, e: EntryView) -> Seq<EntryView>
    decreases rows.len(),
{
    if rows.len() > 0 && rows.first().wins >= e.wins {
        seq![rows.first()] + spec_insert_ranked(rows.drop_first(), e)
    } else {
        seq![e] + rows
    }
}

/// The ledger rows in the order they are written out: descending
/// wins, ties kept in registration order.
pub open spec fn spec_ranked(v: Seq<EntryView>) -> Seq<EntryView>
    decreases v.len(),
{
    if v.len() == 0 {
        Seq::empty()
    } else {
        spec_insert_ranked(spec_ranked(v.drop_last()), v.last())
    }
}

/// Rows sorted by descending wins.
pub open spec fn ranked_order(rows: Seq<EntryView>) -> bool {
    forall|i: int, j: int|
        #![trigger rows[i], rows[j]]
        0 <= i < j < rows.len() ==> rows[i].wins >= rows[j].wins
}

proof fn lemma_insert_ranked_elems(rows: Seq<EntryView>, e: EntryView)
    ensures
        spec_insert_ranked(rows, e).len() == rows.len() + 1,
        forall|x: EntryView|
            #[trigger] spec_insert_ranked(rows, e).contains(x) <==> rows.contains(x) || x == e,
    decreases rows.len(),
{
    if rows.len() > 0 && rows.first().wins >= e.wins {
        lemma_insert_ranked_elems(rows.drop_first(), e);
        let r = spec_insert_ranked(rows, e);
        assert forall|x: EntryView| #[trigger] r.contains(x) implies rows.contains(x) || x == e by {
            let i = choose|i: int| 0 <= i < r.len() && r[i] == x;
            if i > 0 {
                assert(spec_insert_ranked(rows.drop_first(), e)[i - 1] == x);
                assert(spec_insert_ranked(rows.drop_first(), e).contains(x));
                if rows.drop_first().contains(x) {
                    let j = choose|j: int|
                        0 <= j < rows.drop_first().len() && rows.drop_first()[j] == x;
                    assert(rows[j + 1] == x);
                }
            } else {
                assert(rows[0] == x);
            }
        }
        assert forall|x: EntryView| rows.contains(x) || x == e implies #[trigger] r.contains(
            x,
        ) by {
            if x == e {
                assert(spec_insert_ranked(rows.drop_first(), e).contains(x));
                let j = choose|j: int|
                    0 <= j < spec_insert_ranked(rows.drop_first(), e).len()
                        && spec_insert_ranked(rows.drop_first(), e)[j] == x;
                assert(r[j + 1] == x);
            } else {
                let i = choose|i: int| 0 <= i < rows.len() && rows[i] == x;
                if i == 0 {
                    assert(r[0] == x);
                } else {
                    assert(rows.drop_first()[i - 1] == x);
                    assert(rows.drop_first().contains(x));
                    assert(spec_insert_ranked(rows.drop_first(), e).contains(x));
                    let j = choose|j: int|
                        0 <= j < spec_insert_ranked(rows.drop_first(), e).len()
                            && spec_insert_ranked(rows.drop_first(), e)[j] == x;
                    assert(r[j + 1] == x);
                }
            }
        }
    } else {
        let r = spec_insert_ranked(rows, e);
        assert forall|x: EntryView| #[trigger] r.contains(x) implies rows.contains(x) || x == e by {
            let i = choose|i: int| 0 <= i < r.len() && r[i] == x;
            if i > 0 {
                assert(rows[i - 1] == x);
            }
        }
        assert forall|x: EntryView| rows.contains(x) || x == e implies #[trigger] r.contains(
            x,
        ) by {
            if x == e {
                assert(r[0] == x);
            } else {
                let i = choose|i: int| 0 <= i < rows.len() && rows[i] == x;
                assert(r[i + 1] == x);
            }
        }
    }
}

/// Ranking rearranges the rows and loses none: same length, same
/// elements.
pub proof fn lemma_ranked_elems(v: Seq<EntryView>)
    ensures
        spec_ranked(v).len() == v.len(),
        forall|x: EntryView| #[trigger] spec_ranked(v).contains(x) <==> v.contains(x),
    decreases v.len(),
{
    if v.len() > 0 {
        lemma_ranked_elems(v.drop_last());
        lemma_insert_ranked_elems(spec_ranked(v.drop_last()), v.last());
        assert forall|x: EntryView| #[trigger] spec_ranked(v).contains(x) <==> v.contains(x) by {
            if v.drop_last().contains(x) {
                let i = choose|i: int| 0 <= i < v.drop_last().len() && v.drop_last()[i] == x;
                assert(v[i] == x);
            }
            if v.contains(x) {
                let i = choose|i: int| 0 <= i < v.len() && v[i] == x;
                if i < v.len() - 1 {
                    assert(v.drop_last()[i] == x);
                } else {
                    assert(x == v.last());
                }
            }
        }
    }
}

proof fn lemma_insert_ranked_sorted(rows: Seq<EntryView>, e: EntryView)
    requires
        ranked_order(rows),
    ensures
        ranked_order(spec_insert_ranked(rows, e)),
    decreases rows.len(),
{
    lemma_insert_ranked_elems(rows, e);
    if rows.len() > 0 && rows.first().wins >= e.wins {
        assert(ranked_order(rows.drop_first()));
        lemma_insert_ranked_sorted(rows.drop_first(), e);
        lemma_insert_ranked_elems(rows.drop_first(), e);
        let r = spec_insert_ranked(rows, e);
        let tail = spec_insert_ranked(rows.drop_first(), e);
        assert forall|i: int, j: int|
            #![trigger r[i], r[j]]
            0 <= i < j < r.len() implies r[i].wins >= r[j].wins by {
            if i == 0 {
                assert(tail.contains(tail[j - 1]));
                assert(tail[j - 1] == r[j]);
                if rows.drop_first().contains(r[j]) {
                    let k = choose|k: int|
                        0 <= k < rows.drop_first().len() && rows.drop_first()[k] == r[j];
                    assert(rows[k + 1] == r[j]);
                    assert(rows[0].wins >= rows[k + 1].wins);
                }
            } else {
                assert(tail[i - 1] == r[i] && tail[j - 1] == r[j]);
            }
        }
    }
}

/// Where the stable insertion lands: after the rows with at least as
/// many wins, before the first with fewer.
proof fn lemma_insert_ranked_at(rows: Seq<EntryView>, e: EntryView, p: int)
    requires
        0 <= p <= rows.len(),
        forall|q: int| 0 <= q < p ==> (#[trigger] rows[q]).wins >= e.wins,
        p < rows.len() ==> rows[p].wins < e.wins,
    ensures
        spec_insert_ranked(rows, e) == rows.take(p) + seq![e] + rows.skip(p),
    decreases p,
{
    if p == 0 {
        assert(rows.skip(0) =~= rows);
        assert(spec_insert_ranked(rows, e) =~= rows.take(0) + seq![e] + rows.skip(0));
    } else {
        assert(rows[0].wins >= e.wins);
        let tail = rows.drop_first();
        assert(forall|q: int| 0 <= q < p - 1 ==> (#[trigger] tail[q]).wins >= e.wins);
        lemma_insert_ranked_at(tail, e, p - 1);
        assert(tail.take(p - 1) =~= rows.subrange(1, p));
        assert(tail.skip(p - 1) =~= rows.skip(p));
        assert(spec_insert_ranked(rows, e) =~= rows.take(p) + seq![e] + rows.skip(p));
    }
}

/// The written order really is sorted: more wins never stand below
/// fewer.
pub proof fn lemma_ranked_sorted(v: Seq<EntryView>)
    ensures
        ranked_order(spec_ranked(v)),
    decreases v.len(),
{
    if v.len() > 0 {
        lemma_ranked_sorted(v.drop_last());
        lemma_insert_ranked_sorted(spec_ranked(v.drop_last()), v.last());
    }
}

/// How the registry file is written: one name per line, in
/// registration order, each line feed-terminated.
pub open spec fn reg_bytes(v: Seq<EntryView>) -> Seq<u8>
    decreases v.len(),
{
    if v.len() == 0 {
        Seq::empty()
    } else {
        v.first().name + seq![10u8] + reg_bytes(v.drop_first())
    }
}

/// The ledger header: the column labels `rank name wins losses`.
pub open spec fn spec_header() -> Seq<u8> {
    seq![
        114u8,
        97u8,
        110u8,
        107u8,
        32u8,
        110u8,
        97u8,
        109u8,
        101u8,
        32u8,
        119u8,
        105u8,
        110u8,
        115u8,
        32u8,
        108u8,
        111u8,
        115u8,
        115u8,
        101u8,
        115u8,
    ]
}

/// One written ledger row: rank, name, wins and losses, separated by
/// single spaces. The rank is derived from the row's position at
/// write time; a reader recomputes it rather than trusting it.
pub open spec fn row_line(rank: nat, e: EntryView) -> Seq<u8> {
    spec_dec(rank) + seq![32u8] + e.name + seq![32u8] + spec_dec(e.wins as nat) + seq![32u8]
        + spec_dec(e.losses as nat)
}

/// The written rows, ranked `rank0`, `rank0 + 1`, ... downward.
pub open spec fn rows_bytes(rows: Seq<EntryView>, rank0: nat) -> Seq<u8>
    decreases rows.len(),
{
    if rows.len() == 0 {
        Seq::empty()
    } else {
        row_line(rank0, rows.first()) + seq![10u8] + rows_bytes(rows.drop_first(), rank0 + 1)
    }
}

/// How the ledger file is written: the header line, then every entry
/// as a ranked row, best first.
pub open spec fn ledger_bytes(v: Seq<EntryView>) -> Seq<u8> {
    spec_header() + seq![10u8] + rows_bytes(spec_ranked(v), 1)
}

proof fn lemma_reg_bytes_push(v: Seq<EntryView>, e: EntryView)
    ensures
        reg_bytes(v.push(e)) == reg_bytes(v) + e.name + seq![10u8],
    decreases v.len(),
{
    if v.len() == 0 {
        assert(v.push(e).drop_first() =~= Seq::<EntryView>::empty());
        assert(reg_bytes(Seq::<EntryView>::empty()) == Seq::<u8>::empty());
        assert(reg_bytes(v.push(e)) =~= reg_bytes(v) + e.name + seq![10u8]);
    } else {
        assert(v.push(e).drop_first() =~= v.drop_first().push(e));
        lemma_reg_bytes_push(v.drop_first(), e);
        assert(reg_bytes(v.push(e)) =~= reg_bytes(v) + e.name + seq![10u8]);
    }
}

proof fn lemma_rows_bytes_push(rows: Seq<EntryView>, e: EntryView, rank0: nat)
    ensures
        rows_bytes(rows.push(e), rank0) == rows_bytes(rows, rank0) + row_line(
            rank0 + rows.len(),
            e,
        ) + seq![10u8],
    decreases rows.len(),
{
    if rows.len() == 0 {
        assert(rows.push(e).drop_first() =~= Seq::<EntryView>::empty());
        assert(rows_bytes(Seq::<EntryView>::empty(), rank0 + 1) == Seq::<u8>::empty());
        assert(rows_bytes(rows.push(e), rank0) =~= rows_bytes(rows, rank0) + row_line(rank0, e)
            + seq![10u8]);
    } else {
        assert(rows.push(e).drop_first() =~= rows.drop_first().push(e));
        lemma_rows_bytes_push(rows.drop_first(), e, rank0 + 1);
        assert(rows_bytes(rows.push(e), rank0) =~= rows_bytes(rows, rank0) + row_line(
            rank0 + rows.len(),
            e,
        ) + seq![10u8]);
    }
}

/// The views of a sequence of ledger rows.
pub open spec fn rows_view(v: Seq<LedgerEntry>) -> Seq<EntryView> {
    Seq::new(v.len(), |k: int| v[k]@)
}

/// The names of a store image, in order.
pub open spec fn names_of(v: Seq<EntryView>) -> Seq<Seq<u8>> {
    Seq::new(v.len(), |i: int| v[i].name)
}

/// The same identities with their counters cleared: the state a
/// registry file alone loads to.
pub open spec fn zeros_of(v: Seq<EntryView>) -> Seq<EntryView> {
    Seq::new(v.len(), |i: int| EntryView { name: v[i].name, wins: 0, losses: 0 })
}

/// Registering the same pair again — in any spelling that trims and
/// case-folds to the same two identities — is refused, and the
/// refusal names both: they are both duplicates now. Since a refused
/// call leaves the store untouched, the registry file's bytes after
/// the second call are exactly those after the first.
pub proof fn lemma_register_repeat(
    v: Seq<EntryView>,
    a: Seq<u8>,
    b: Seq<u8>,
    a2: Seq<u8>,
    b2: Seq<u8>,
)
    requires
        store_wf(v),
        spec_register_ok(v, a, b),
        spec_norm(a2) == spec_norm(a),
        spec_norm(b2) == spec_norm(b),
    ensures
        !spec_register_ok(spec_register(v, a, b), a2, b2),
        reg_conflicts(spec_register(v, a, b), a2, b2) == seq![spec_trim(a2), spec_trim(b2)],
{
    let v2 = spec_register(v, a, b);
    lemma_norm_valid(spec_trim(a));
    lemma_norm_valid(spec_trim(b));
    assert(v2[v.len() as int].name == spec_trim(a));
    assert(v2[v.len() as int + 1].name == spec_trim(b));
    assert(spec_norm(v2[v.len() as int].name) == spec_norm(a2));
    assert(spec_norm(v2[v.len() as int + 1].name) == spec_norm(b2));
    assert(contains_norm(v2, spec_norm(a2)));
    assert(contains_norm(v2, spec_norm(b2)));
    assert(reg_conflicts(v2, a2, b2) =~= seq![spec_trim(a2), spec_trim(b2)]);
}

proof fn lemma_lines_of_reg_bytes(v: Seq<EntryView>)
    requires
        forall|i: int| 0 <= i < v.len() ==> valid_name(#[trigger] v[i].name),
    ensures
        spec_lines(reg_bytes(v)) == names_of(v),
    decreases v.len(),
{
    if v.len() == 0 {
        assert(spec_lines(reg_bytes(v)) =~= names_of(v));
    } else {
        let df = v.drop_first();
        assert(forall|i: int| 0 <= i < df.len() ==> valid_name(#[trigger] df[i].name));
        lemma_lines_of_reg_bytes(df);
        let nm = v.first().name;
        assert forall|j: int| 0 <= j < nm.len() implies nm[j] != 10 by {
            assert(!is_sep_byte(nm[j]));
        }
        lemma_lines_concat(nm, reg_bytes(df));
        assert(spec_lines(reg_bytes(v)) == seq![nm] + names_of(df));
        assert(seq![nm] + names_of(df) =~= names_of(v));
    }
}

proof fn lemma_reg_load_of_names(v: Seq<EntryView>)
    requires
        store_wf(v),
    ensures
        reg_load(names_of(v)).0 == zeros_of(v),
        reg_load(names_of(v)).1 == Seq::<int>::empty(),
    decreases v.len(),
{
    if v.len() == 0 {
        assert(names_of(v) =~= Seq::<Seq<u8>>::empty());
        assert(reg_load(names_of(v)).0 =~= zeros_of(v));
    } else {
        let dl = v.drop_last();
        assert(store_wf(dl)) by {
            assert(forall|i: int| 0 <= i < dl.len() ==> #[trigger] dl[i] == v[i]);
        }
        lemma_reg_load_of_names(dl);
        assert(names_of(v).drop_last() =~= names_of(dl));
        let nm = v.last().name;
        assert(names_of(v).last() == nm);
        lemma_norm_valid(nm);
        assert(!contains_norm(zeros_of(dl), spec_lower(nm))) by {
            if contains_norm(zeros_of(dl), spec_lower(nm)) {
                let i = choose|i: int|
                    0 <= i < zeros_of(dl).len() && spec_norm(
                        #[trigger] zeros_of(dl)[i].name,
                    ) == spec_lower(nm);
                assert(zeros_of(dl)[i].name == v[i].name);
                assert(spec_norm(v[i].name) == spec_norm(v[v.len() - 1].name));
            }
        }
        assert(reg_load(names_of(v)).0 =~= zeros_of(v));
        assert(reg_load(names_of(v)).1 =~= Seq::<int>::empty());
    }
}

proof fn lemma_row_line_no_nl(rank: nat, e: EntryView)
    requires
        valid_name(e.name),
    ensures
        forall|j: int| 0 <= j < row_line(rank, e).len() ==> row_line(rank, e)[j] != 10,
{
    lemma_dec_digits(rank);
    lemma_dec_digits(e.wins as nat);
    lemma_dec_digits(e.losses as nat);
    let line = row_line(rank, e);
    assert forall|j: int| 0 <= j < line.len() implies line[j] != 10 by {
        if line[j] == 10 {
            assert(is_sep_byte(line[j]));
            assert(!is_digit(line[j]));
        }
    }
}

proof fn lemma_fields_of_row_line(rank: nat, e: EntryView)
    requires
        valid_name(e.name),
    ensures
        spec_fields(row_line(rank, e)) == seq![
            spec_dec(rank),
            e.name,
            spec_dec(e.wins as nat),
            spec_dec(e.losses as nat),
        ],
{
    let d1 = spec_dec(rank);
    let d2 = spec_dec(e.wins as nat);
    let d3 = spec_dec(e.losses as nat);
    lemma_dec_digits(rank);
    lemma_dec_digits(e.wins as nat);
    lemma_dec_digits(e.losses as nat);
    assert forall|s: Seq<u8>, j: int|
        (s == d1 || s == d2 || s == d3) && 0 <= j < s.len() implies !is_sep_byte(
        #[trigger] s[j],
    ) by {
        assert(is_digit(s[j]));
    }
    let line = row_line(rank, e);
    let r1 = seq![32u8] + e.name + seq![32u8] + d2 + seq![32u8] + d3;
    assert(line =~= d1 + r1);
    lemma_fields_token(d1, r1);
    let r2 = e.name + seq![32u8] + d2 + seq![32u8] + d3;
    assert(r1 =~= seq![32u8] + r2);
    lemma_fields_sep(32u8, r2);
    let r3 = seq![32u8] + d2 + seq![32u8] + d3;
    assert(r2 =~= e.name + r3);
    lemma_fields_token(e.name, r3);
    let r4 = d2 + seq![32u8] + d3;
    assert(r3 =~= seq![32u8] + r4);
    lemma_fields_sep(32u8, r4);
    let r5 = seq![32u8] + d3;
    assert(r4 =~= d2 + r5);
    lemma_fields_token(d2, r5);
    lemma_fields_sep(32u8, d3);
    assert(r5 =~= seq![32u8] + d3);
    assert(d3 =~= d3 + Seq::<u8>::empty());
    lemma_fields_token(d3, Seq::<u8>::empty());
    assert(spec_fields(Seq::<u8>::empty()) == Seq::<Seq<u8>>::empty());
    assert(spec_fields(line) == seq![d1] + (seq![e.name] + (seq![d2] + (seq![d3]
        + Seq::<Seq<u8>>::empty()))));
    assert(seq![d1] + (seq![e.name] + (seq![d2] + (seq![d3] + Seq::<Seq<u8>>::empty())))
        =~= seq![d1, e.name, d2, d3]);
}

proof fn lemma_led_row_of_row_line(rank: nat, e: EntryView)
    requires
        valid_name(e.name),
    ensures
        led_row(row_line(rank, e)) == Some(e),
{
    lemma_fields_of_row_line(rank, e);
    lemma_parse_dec(e.wins);
    lemma_parse_dec(e.losses);
    let fs = spec_fields(row_line(rank, e));
    assert(fs.len() == 4 && fs[1] == e.name && fs[2] == spec_dec(e.wins as nat) && fs[3]
        == spec_dec(e.losses as nat));
    assert(led_row(row_line(rank, e)) == Some(
        EntryView { name: e.name, wins: e.wins, losses: e.losses },
    ));
    assert(EntryView { name: e.name, wins: e.wins, losses: e.losses } == e);
}

/// The written ledger rows as lines, ranked from `rank0`.
pub open spec fn row_lines(rows: Seq<EntryView>, rank0: nat) -> Seq<Seq<u8>> {
    Seq::new(rows.len(), |k: int| row_line((rank0 + k) as nat, rows[k]))
}

proof fn lemma_lines_of_rows_bytes(rows: Seq<EntryView>, rank0: nat)
    requires
        forall|i: int| 0 <= i < rows.len() ==> valid_name(#[trigger] rows[i].name),
    ensures
        spec_lines(rows_bytes(rows, rank0)) == row_lines(rows, rank0),
    decreases rows.len(),
{
    if rows.len() == 0 {
        assert(spec_lines(rows_bytes(rows, rank0)) =~= row_lines(rows, rank0));
    } else {
        let df = rows.drop_first();
        assert(forall|i: int| 0 <= i < df.len() ==> valid_name(#[trigger] df[i].name));
        lemma_lines_of_rows_bytes(df, rank0 + 1);
        lemma_row_line_no_nl(rank0, rows.first());
        lemma_lines_concat(row_line(rank0, rows.first()), rows_bytes(df, rank0 + 1));
        assert(spec_lines(rows_bytes(rows, rank0)) == seq![row_line(rank0, rows.first())]
            + row_lines(df, rank0 + 1));
        assert(seq![row_line(rank0, rows.first())] + row_lines(df, rank0 + 1) =~= row_lines(
            rows,
            rank0,
        ));
    }
}

/// Reading rows in any order: one fold step of the reconciliation.
pub open spec fn apply_rows(es: Seq<EntryView>, rows: Seq<EntryView>) -> Seq<EntryView>
    decreases rows.len(),
{
    if rows.len() == 0 {
        es
    } else {
        led_apply(apply_rows(es, rows.drop_last()), rows.last())
    }
}

proof fn lemma_contains_drop_last(s: Seq<EntryView>, x: EntryView)
    requires
        s.len() > 0,
    ensures
        s.contains(x) <==> (s.drop_last().contains(x) || x == s.last()),
{
    if s.contains(x) {
        let i = choose|i: int| 0 <= i < s.len() && s[i] == x;
        if i < s.len() - 1 {
            assert(s.drop_last()[i] == x);
        }
    }
    if s.drop_last().contains(x) {
        let i = choose|i: int| 0 <= i < s.drop_last().len() && s.drop_last()[i] == x;
        assert(s[i] == x);
    }
    if x == s.last() {
        assert(s[s.len() - 1] == x);
    }
}

proof fn lemma_led_load_of_rows(es0: Seq<EntryView>, rows: Seq<EntryView>)
    requires
        forall|i: int| 0 <= i < rows.len() ==> valid_name(#[trigger] rows[i].name),
    ensures
        led_load(es0, seq![spec_header()] + row_lines(rows, 1)).0 == apply_rows(es0, rows),
        led_load(es0, seq![spec_header()] + row_lines(rows, 1)).1 == Seq::<int>::empty(),
    decreases rows.len(),
{
    let lines = seq![spec_header()] + row_lines(rows, 1);
    if rows.len() == 0 {
        assert(lines.len() == 1);
        assert(lines.drop_last() =~= Seq::<Seq<u8>>::empty());
        assert(led_load(es0, Seq::<Seq<u8>>::empty()).0 == es0);
        assert(led_load(es0, lines).0 == es0);
        assert(led_load(es0, lines).1 =~= Seq::<int>::empty());
    } else {
        let df = rows.drop_last();
        assert(forall|i: int| 0 <= i < df.len() ==> valid_name(#[trigger] df[i].name));
        lemma_led_load_of_rows(es0, df);
        let prev_lines = seq![spec_header()] + row_lines(df, 1);
        assert(lines.drop_last() =~= prev_lines);
        let rk = rows.len() as nat;
        assert(lines.last() == row_line(rk, rows.last()));
        lemma_led_row_of_row_line(rk, rows.last());
        lemma_fields_of_row_line(rk, rows.last());
        assert(spec_fields(lines.last()).len() == 4);
        assert(led_load(es0, lines).0 == led_apply(led_load(es0, prev_lines).0, rows.last()));
        assert(led_load(es0, lines).1 =~= Seq::<int>::empty());
    }
}

/// Reconciliation does not depend on the order the rows stand in the
/// file: rows drawn from the entries of a sound store `v`, applied in
/// any order to the zero-counter image of `v`'s registry, restore
/// each entry whose row appears and leave the rest at zero.
pub proof fn lemma_apply_rows_reconcile(v: Seq<EntryView>, es: Seq<EntryView>, rows: Seq<EntryView>)
    requires
        store_wf(v),
        es.len() == v.len(),
        forall|k: int| 0 <= k < v.len() ==> #[trigger] es[k].name == v[k].name,
        forall|x: EntryView| #[trigger] rows.contains(x) ==> v.contains(x),
    ensures
        apply_rows(es, rows).len() == v.len(),
        forall|k: int|
            0 <= k < v.len() ==> #[trigger] apply_rows(es, rows)[k].name == v[k].name,
        forall|k: int|
            0 <= k < v.len() && rows.contains(v[k]) ==> #[trigger] apply_rows(es, rows)[k]
                == v[k],
        forall|k: int|
            0 <= k < v.len() && !rows.contains(v[k]) ==> #[trigger] apply_rows(es, rows)[k]
                == es[k],
    decreases rows.len(),
{
    if rows.len() > 0 {
        let df = rows.drop_last();
        let r = rows.last();
        assert forall|x: EntryView| #[trigger] df.contains(x) implies v.contains(x) by {
            lemma_contains_drop_last(rows, x);
        }
        lemma_apply_rows_reconcile(v, es, df);
        let mid = apply_rows(es, df);
        assert(rows.contains(r)) by {
            assert(rows[rows.len() - 1] == r);
        }
        assert(v.contains(r));
        let j = choose|j: int| 0 <= j < v.len() && v[j] == r;
        lemma_norm_valid(v[j].name);
        assert(store_wf(mid)) by {
            assert(forall|k: int| 0 <= k < mid.len() ==> #[trigger] mid[k].name == v[k].name);
        }
        assert(spec_norm(mid[j].name) == spec_lower(r.name));
        lemma_index_unique(mid, spec_lower(r.name), j);
        let out = apply_rows(es, rows);
        assert(out == mid.update(j, EntryView { name: mid[j].name, wins: r.wins, losses: r.losses }));
        assert(out[j] == v[j]);
        assert forall|k: int| 0 <= k < v.len() && rows.contains(v[k]) implies #[trigger] out[k]
            == v[k] by {
            lemma_contains_drop_last(rows, v[k]);
            if k != j {
                if v[k] == r {
                    assert(spec_norm(v[k].name) == spec_norm(v[j].name));
                    assert(false);
                }
                assert(df.contains(v[k]));
                assert(out[k] == mid[k]);
            }
        }
        assert forall|k: int| 0 <= k < v.len() && !rows.contains(v[k]) implies #[trigger] out[k]
            == es[k] by {
            lemma_contains_drop_last(rows, v[k]);
            assert(k != j);
            assert(out[k] == mid[k]);
        }
    }
}

/// The registry file is append-only: a successful registration adds
/// the two trimmed names as two new lines at the end and leaves every
/// byte before them unchanged.
pub proof fn lemma_register_appends(v: Seq<EntryView>, a: Seq<u8>, b: Seq<u8>)
    ensures
        reg_bytes(spec_register(v, a, b)) == reg_bytes(v) + spec_trim(a) + seq![10u8] + spec_trim(
            b,
        ) + seq![10u8],
{
    let ea = EntryView { name: spec_trim(a), wins: 0, losses: 0 };
    let eb = EntryView { name: spec_trim(b), wins: 0, losses: 0 };
    assert(spec_register(v, a, b) =~= v.push(ea).push(eb));
    lemma_reg_bytes_push(v, ea);
    lemma_reg_bytes_push(v.push(ea), eb);
    assert(reg_bytes(v) + ea.name + seq![10u8] + eb.name + seq![10u8] =~= reg_bytes(v)
        + spec_trim(a) + seq![10u8] + spec_trim(b) + seq![10u8]);
}

/// Round trip: writing both store files and loading them back gives
/// the very store that was written — the same identities, in the same
/// registration order, with the same counters — and nothing skipped.
pub proof fn lemma_persist_load_roundtrip(v: Seq<EntryView>)
    requires
        store_wf(v),
    ensures
        spec_load(spec_lines(reg_bytes(v)), spec_lines(ledger_bytes(v))).0 == v,
        spec_load(spec_lines(reg_bytes(v)), spec_lines(ledger_bytes(v))).1 == Seq::<int>::empty(),
        spec_load(spec_lines(reg_bytes(v)), spec_lines(ledger_bytes(v))).2 == Seq::<int>::empty(),
{
    lemma_lines_of_reg_bytes(v);
    lemma_reg_load_of_names(v);
    lemma_ranked_elems(v);
    let rows = spec_ranked(v);
    assert forall|i: int| 0 <= i < rows.len() implies valid_name(#[trigger] rows[i].name) by {
        assert(rows.contains(rows[i]));
        let k = choose|k: int| 0 <= k < v.len() && v[k] == rows[i];
        assert(valid_name(v[k].name));
    }
    assert forall|j: int| 0 <= j < spec_header().len() implies spec_header()[j] != 10 by {}
    lemma_lines_of_rows_bytes(rows, 1);
    lemma_lines_concat(spec_header(), rows_bytes(rows, 1));
    assert(spec_lines(ledger_bytes(v)) == seq![spec_header()] + row_lines(rows, 1));
    lemma_led_load_of_rows(zeros_of(v), rows);
    assert forall|x: EntryView| #[trigger] rows.contains(x) implies v.contains(x) by {}
    lemma_apply_rows_reconcile(v, zeros_of(v), rows);
    let out = apply_rows(zeros_of(v), rows);
    assert forall|k: int| 0 <= k < v.len() implies #[trigger] out[k] == v[k] by {
        assert(v[k] == v[k] && v.contains(v[k]));
        assert(rows.contains(v[k]));
    }
    assert(out =~= v);
}

/// What a load had to skip: the 0-based positions of corrupt lines
/// in each store file. A corrupt line is recovered from by skipping
/// it, never by giving up the rest of the file; the positions are
/// returned so the caller can log them.
pub struct LoadReport {
    pub registry_skipped: Vec<usize>,
    pub ledger_skipped: Vec<usize>,
}

/// The registry and ledger, as one in-memory list of entries in
/// registration order.
pub struct RecordStore {
    entries: Vec<LedgerEntry>,
}

impl View for RecordStore {
    type V = Seq<EntryView>;

    closed spec fn view(&self) -> Seq<EntryView> {
        Seq::new(self.entries@.len(), |i: int| self.entries@[i]@)
    }
}

impl RecordStore {
    /// An empty store: the state before any file has ever been read.
    pub fn new() -> (s: RecordStore)
        ensures
            s@ == Seq::<EntryView>::empty(),
            store_wf(s@),
    {
        let s = RecordStore { entries: Vec::new() };
        proof {
            assert(s@ =~= Seq::<EntryView>::empty());
        }
        s
    }

    /// How many identities are registered.
    pub fn len(&self) -> (n: usize)
        ensures
            n == self@.len(),
    {
        self.entries.len()
    }

    /// The entry at a registration position, oldest first.
    pub fn entry_at(&self, i: usize) -> (e: &LedgerEntry)
        requires
            i < self@.len(),
        ensures
            e@ == self@[i as int],
    {
        &self.entries[i]
    }

    /// The position of the entry matching the normalized key, if any.
    fn find_index(&self, key: &[u8]) -> (r: Option<usize>)
        requires
            store_wf(self@),
        ensures
            r is Some <==> contains_norm(self@, key@),
            r matches Some(i) ==> 0 <= i < self@.len() && spec_norm(self@[i as int].name) == key@
                && index_of_norm(self@, key@) == i,
    {
        let n: usize = self.entries.len();
        let mut i: usize = 0;
        while i < n
            invariant
                0 <= i <= n,
                n == self@.len(),
                store_wf(self@),
                forall|j: int| 0 <= j < i ==> spec_norm(self@[j].name) != key@,
            decreases n - i,
        {
            let folded = lower_bytes(self.entries[i].name.as_slice());
            proof {
                lemma_norm_valid(self@[i as int].name);
            }
            if bytes_eq(folded.as_slice(), key) {
                proof {
                    lemma_index_unique(self@, key@, i as int);
                }
                return Some(i);
            }
            i = i + 1;
        }
        None
    }

    /// Whether every counter can still grow: the precondition of
    /// [`RecordStore::record_result`], checkable at run time.
    pub fn counters_in_range(&self) -> (r: bool)
        ensures
            r == counters_ok(self@),
    {
        let n: usize = self.entries.len();
        let mut i: usize = 0;
        while i < n
            invariant
                0 <= i <= n,
                n == self@.len(),
                forall|j: int| 0 <= j < i ==> entry_counters_ok(#[trigger] self@[j]),
            decreases n - i,
        {
            let e = &self.entries[i];
            proof {
                assert(e@ == self@[i as int]);
            }
            if e.wins == u64::MAX || e.losses == u64::MAX {
                proof {
                    assert(!entry_counters_ok(self@[i as int]));
                }
                return false;
            }
            proof {
                assert(entry_counters_ok(self@[i as int]));
            }
            i = i + 1;
        }
        true
    }

    /// Registers a fresh pair of identities: both names trimmed, both
    /// appended with zero counters — or neither, when either name is
    /// unusable, already present, or the two collide.
    pub fn register(&mut self, a: &[u8], b: &[u8]) -> (r: Result<(), StoreError>)
        requires
            store_wf(old(self)@),
        ensures
            store_wf(final(self)@),
            r is Ok <==> spec_register_ok(old(self)@, a@, b@),
            r is Ok ==> final(self)@ == spec_register(old(self)@, a@, b@),
            !(r is Ok) ==> final(self)@ == old(self)@,
            !valid_name(spec_trim(a@)) ==> (r matches Err(StoreError::InvalidIdentity(n))
                && n@ == spec_trim(a@)),
            valid_name(spec_trim(a@)) && !valid_name(spec_trim(b@)) ==> (r matches Err(
                StoreError::InvalidIdentity(n),
            ) && n@ == spec_trim(b@)),
            valid_name(spec_trim(a@)) && valid_name(spec_trim(b@)) && !spec_register_ok(
                old(self)@,
                a@,
                b@,
            ) ==> (r matches Err(StoreError::DuplicateIdentity(ns)) && seq_views(ns@)
                == reg_conflicts(old(self)@, a@, b@)),
    {
        let ta = trim_bytes(a);
        if !is_valid_name(ta.as_slice()) {
            return Err(StoreError::InvalidIdentity(ta));
        }
        let tb = trim_bytes(b);
        if !is_valid_name(tb.as_slice()) {
            return Err(StoreError::InvalidIdentity(tb));
        }
        let ka = lower_bytes(ta.as_slice());
        let kb = lower_bytes(tb.as_slice());
        proof {
            lemma_norm_valid(ta@);
            lemma_norm_valid(tb@);
        }
        let a_present = self.find_index(ka.as_slice()).is_some();
        let b_present = self.find_index(kb.as_slice()).is_some();
        let pair_collides = bytes_eq(ka.as_slice(), kb.as_slice());
        if a_present || b_present || pair_collides {
            let mut ns: Vec<Vec<u8>> = Vec::new();
            if a_present {
                ns.push(ta);
            }
            if b_present || pair_collides {
                ns.push(tb);
            }
            proof {
                assert(seq_views(ns@) =~= reg_conflicts(self@, a@, b@));
            }
            return Err(StoreError::DuplicateIdentity(ns));
        }
        let ghost prev = self@;
        self.entries.push(LedgerEntry { name: ta, wins: 0, losses: 0 });
        self.entries.push(LedgerEntry { name: tb, wins: 0, losses: 0 });
        proof {
            assert(self@ =~= spec_register(prev, a@, b@));
            assert forall|i: int, j: int| 0 <= i < j < self@.len() implies spec_norm(
                self@[i].name,
            ) != spec_norm(self@[j].name) by {
                if j < prev.len() {
                    assert(spec_norm(prev[i].name) != spec_norm(prev[j].name));
                }
            }
        }
        Ok(())
    }

    /// Confirms that both identities are registered; changes nothing.
    pub fn verify(&self, a: &[u8], b: &[u8]) -> (r: Result<(), StoreError>)
        requires
            store_wf(self@),
        ensures
            r is Ok <==> contains_norm(self@, spec_norm(a@)) && contains_norm(
                self@,
                spec_norm(b@),
            ),
            !(r is Ok) ==> (r matches Err(StoreError::UnknownIdentity(ns)) && seq_views(ns@)
                == missing_names(self@, a@, b@)),
    {
        let ta = trim_bytes(a);
        let tb = trim_bytes(b);
        let ka = lower_bytes(ta.as_slice());
        let kb = lower_bytes(tb.as_slice());
        let a_present = self.find_index(ka.as_slice()).is_some();
        let b_present = self.find_index(kb.as_slice()).is_some();
        if a_present && b_present {
            return Ok(());
        }
        let mut ns: Vec<Vec<u8>> = Vec::new();
        if !a_present {
            ns.push(ta);
        }
        if !b_present {
            ns.push(tb);
        }
        proof {
            assert(seq_views(ns@) =~= missing_names(self@, a@, b@));
        }
        Err(StoreError::UnknownIdentity(ns))
    }

    /// Records one concluded match: one more win for the winner, one
    /// more loss for the loser — exactly once, and only when both
    /// resolve to registered identities.
    pub fn record_result(&mut self, winner: &[u8], loser: &[u8]) -> (r: Result<(), StoreError>)
        requires
            store_wf(old(self)@),
            counters_ok(old(self)@),
        ensures
            store_wf(final(self)@),
            r is Ok <==> contains_norm(old(self)@, spec_norm(winner@)) && contains_norm(
                old(self)@,
                spec_norm(loser@),
            ),
            r is Ok ==> final(self)@ == spec_record(
                old(self)@,
                spec_norm(winner@),
                spec_norm(loser@),
            ),
            !(r is Ok) ==> final(self)@ == old(self)@ && (r matches Err(
                StoreError::UnknownIdentity(ns),
            ) && seq_views(ns@) == missing_names(old(self)@, winner@, loser@)),
    {
        let tw = trim_bytes(winner);
        let tl = trim_bytes(loser);
        let kw = lower_bytes(tw.as_slice());
        let kl = lower_bytes(tl.as_slice());
        let iw_found = self.find_index(kw.as_slice());
        let il_found = self.find_index(kl.as_slice());
        match (iw_found, il_found) {
            (Some(iw), Some(il)) => {
                let ghost prev = self@;
                let e = &self.entries[iw];
                let up = LedgerEntry {
                    name: copy_range(e.name.as_slice(), 0, e.name.len()),
                    wins: e.wins + 1,
                    losses: e.losses,
                };
                proof {
                    assert(e.name@.subrange(0, e.name@.len() as int) =~= e.name@);
                }
                self.entries.set(iw, up);
                let ghost mid = self@;
                proof {
                    assert(mid =~= prev.update(
                        iw as int,
                        EntryView {
                            name: prev[iw as int].name,
                            wins: (prev[iw as int].wins + 1) as u64,
                            losses: prev[iw as int].losses,
                        },
                    ));
                    assert(store_wf(mid)) by {
                        assert(forall|k: int|
                            0 <= k < mid.len() ==> #[trigger] mid[k].name == prev[k].name);
                    }
                    lemma_index_unique(mid, kl@, il as int);
                }
                let e2 = &self.entries[il];
                let up2 = LedgerEntry {
                    name: copy_range(e2.name.as_slice(), 0, e2.name.len()),
                    wins: e2.wins,
                    losses: e2.losses + 1,
                };
                proof {
                    assert(e2.name@.subrange(0, e2.name@.len() as int) =~= e2.name@);
                    assert(mid[il as int].losses < u64::MAX) by {
                        if il != iw {
                            assert(mid[il as int] == prev[il as int]);
                        }
                    }
                }
                self.entries.set(il, up2);
                proof {
                    assert(self@ =~= mid.update(
                        il as int,
                        EntryView {
                            name: mid[il as int].name,
                            wins: mid[il as int].wins,
                            losses: (mid[il as int].losses + 1) as u64,
                        },
                    ));
                    assert(self@ == spec_record(prev, spec_norm(winner@), spec_norm(loser@)));
                    assert(store_wf(self@)) by {
                        assert(forall|k: int|
                            0 <= k < self@.len() ==> #[trigger] self@[k].name == prev[k].name);
                    }
                }
                Ok(())
            },
            (wfound, _) => {
                let mut ns: Vec<Vec<u8>> = Vec::new();
                if wfound.is_none() {
                    ns.push(tw);
                }
                if il_found.is_none() {
                    ns.push(tl);
                }
                proof {
                    assert(seq_views(ns@) =~= missing_names(self@, winner@, loser@));
                }
                Err(StoreError::UnknownIdentity(ns))
            },
        }
    }

    /// The recorded wins and losses of an identity, under the usual
    /// trimmed, case-folded comparison; nothing for an unknown name.
    pub fn stats_of(&self, name: &[u8]) -> (r: Option<(u64, u64)>)
        requires
            store_wf(self@),
        ensures
            r is Some <==> contains_norm(self@, spec_norm(name@)),
            r matches Some(p) ==> {
                let e = self@[index_of_norm(self@, spec_norm(name@))];
                p.0 == e.wins && p.1 == e.losses
            },
    {
        let key = normalize(name);
        match self.find_index(key.as_slice()) {
            Some(i) => {
                let e = &self.entries[i];
                proof {
                    assert(e@ == self@[i as int]);
                }
                Some((e.wins, e.losses))
            },
            None => None,
        }
    }

    /// Reads the registry lines into a fresh store.
    fn load_registry_lines(lines: &Vec<Vec<u8>>) -> (r: (RecordStore, Vec<usize>))
        ensures
            store_wf(r.0@),
            r.0@ == reg_load(seq_views(lines@)).0,
            skipped_view(r.1@) == reg_load(seq_views(lines@)).1,
    {
        let ghost ll = seq_views(lines@);
        let mut store = RecordStore::new();
        let mut skipped: Vec<usize> = Vec::new();
        let n: usize = lines.len();
        let mut i: usize = 0;
        proof {
            assert(ll.take(0) =~= Seq::<Seq<u8>>::empty());
            assert(skipped_view(skipped@) =~= Seq::<int>::empty());
        }
        while i < n
            invariant
                0 <= i <= n,
                n == lines@.len(),
                ll == seq_views(lines@),
                store_wf(store@),
                store@ == reg_load(ll.take(i as int)).0,
                skipped_view(skipped@) == reg_load(ll.take(i as int)).1,
            decreases n - i,
        {
            let ghost pre = reg_load(ll.take(i as int));
            proof {
                assert(ll.take(i as int + 1).drop_last() =~= ll.take(i as int));
                assert(ll.take(i as int + 1).last() == lines@[i as int]@);
            }
            let line = &lines[i];
            let t = trim_bytes(line.as_slice());
            if t.len() == 0 {
            } else if !is_valid_name(t.as_slice()) {
                skipped.push(i);
                proof {
                    assert(skipped_view(skipped@) =~= pre.1.push(i as int));
                }
            } else {
                let key = lower_bytes(t.as_slice());
                if store.find_index(key.as_slice()).is_some() {
                    skipped.push(i);
                    proof {
                        assert(skipped_view(skipped@) =~= pre.1.push(i as int));
                    }
                } else {
                    let ghost prev = store@;
                    proof {
                        lemma_norm_valid(t@);
                    }
                    store.entries.push(LedgerEntry { name: t, wins: 0, losses: 0 });
                    proof {
                        assert(store@ =~= prev.push(
                            EntryView { name: spec_trim(lines@[i as int]@), wins: 0, losses: 0 },
                        ));
                        assert forall|x: int, y: int| 0 <= x < y < store@.len() implies spec_norm(
                            store@[x].name,
                        ) != spec_norm(store@[y].name) by {
                            if y < prev.len() {
                                assert(spec_norm(prev[x].name) != spec_norm(prev[y].name));
                            } else {
                                assert(spec_norm(store@[x].name) != key@);
                            }
                        }
                    }
                }
            }
            i = i + 1;
        }
        proof {
            assert(ll.take(n as int) =~= ll);
        }
        (store, skipped)
    }

    /// Reconciles the ledger lines against the loaded registry.
    fn apply_ledger_lines(&mut self, lines: &Vec<Vec<u8>>) -> (skipped: Vec<usize>)
        requires
            store_wf(old(self)@),
        ensures
            store_wf(final(self)@),
            final(self)@ == led_load(old(self)@, seq_views(lines@)).0,
            skipped_view(skipped@) == led_load(old(self)@, seq_views(lines@)).1,
    {
        let ghost ll = seq_views(lines@);
        let ghost es0 = self@;
        let mut skipped: Vec<usize> = Vec::new();
        let n: usize = lines.len();
        let mut i: usize = 0;
        proof {
            assert(ll.take(0) =~= Seq::<Seq<u8>>::empty());
            assert(skipped_view(skipped@) =~= Seq::<int>::empty());
        }
        while i < n
            invariant
                0 <= i <= n,
                n == lines@.len(),
                ll == seq_views(lines@),
                store_wf(self@),
                self@ == led_load(es0, ll.take(i as int)).0,
                skipped_view(skipped@) == led_load(es0, ll.take(i as int)).1,
            decreases n - i,
        {
            let ghost pre = led_load(es0, ll.take(i as int));
            proof {
                assert(ll.take(i as int + 1).drop_last() =~= ll.take(i as int));
                assert(ll.take(i as int + 1).last() == lines@[i as int]@);
            }
            if i > 0 {
                let fields = split_fields(lines[i].as_slice());
                let ghost fs = spec_fields(lines@[i as int]@);
                if fields.len() == 0 {
                } else if fields.len() < 4 {
                    skipped.push(i);
                    proof {
                        assert(skipped_view(skipped@) =~= pre.1.push(i as int));
                    }
                } else {
                    let w = parse_u64(fields[2].as_slice());
                    let l = parse_u64(fields[3].as_slice());
                    proof {
                        assert(fields@[2]@ == fs[2] && fields@[3]@ == fs[3] && fields@[1]@
                            == fs[1]);
                    }
                    match (w, l) {
                        (Some(wv), Some(lv)) => {
                            proof {
                                lemma_fields_valid(lines@[i as int]@);
                                lemma_norm_valid(fs[1]);
                            }
                            let ghost row = EntryView { name: fs[1], wins: wv, losses: lv };
                            let key = lower_bytes(fields[1].as_slice());
                            match self.find_index(key.as_slice()) {
                                Some(j) => {
                                    let ghost prev = self@;
                                    let e = &self.entries[j];
                                    let up = LedgerEntry {
                                        name: copy_range(e.name.as_slice(), 0, e.name.len()),
                                        wins: wv,
                                        losses: lv,
                                    };
                                    proof {
                                        assert(e.name@.subrange(0, e.name@.len() as int)
                                            =~= e.name@);
                                    }
                                    self.entries.set(j, up);
                                    proof {
                                        assert(self@ =~= prev.update(
                                            j as int,
                                            EntryView {
                                                name: prev[j as int].name,
                                                wins: wv,
                                                losses: lv,
                                            },
                                        ));
                                        assert(self@ == led_apply(prev, row));
                                        assert(store_wf(self@)) by {
                                            assert(forall|k: int|
                                                0 <= k < self@.len() ==> #[trigger] self@[k].name
                                                    == prev[k].name);
                                        }
                                    }
                                },
                                None => {
                                    let ghost prev = self@;
                                    let nm = copy_range(fields[1].as_slice(), 0, fields[1].len());
                                    self.entries.push(
                                        LedgerEntry { name: nm, wins: wv, losses: lv },
                                    );
                                    proof {
                                        assert(nm@ =~= fs[1]);
                                        assert(self@ =~= prev.push(row));
                                        assert(self@ == led_apply(prev, row));
                                        assert forall|x: int, y: int|
                                            0 <= x < y < self@.len() implies spec_norm(
                                            self@[x].name,
                                        ) != spec_norm(self@[y].name) by {
                                            if y < prev.len() {
                                                assert(spec_norm(prev[x].name) != spec_norm(
                                                    prev[y].name,
                                                ));
                                            } else {
                                                assert(spec_norm(self@[x].name) != key@);
                                            }
                                        }
                                    }
                                },
                            }
                        },
                        _ => {
                            skipped.push(i);
                            proof {
                                assert(skipped_view(skipped@) =~= pre.1.push(i as int));
                            }
                        },
                    }
                }
            }
            i = i + 1;
        }
        proof {
            assert(ll.take(n as int) =~= ll);
        }
        skipped
    }

    /// Reads both store files — either may be missing, which reads as
    /// empty — into a fresh store, skipping and reporting every line
    /// that cannot be used so that one bad line never blocks the rest.
    pub fn load(registry_text: Option<&[u8]>, ledger_text: Option<&[u8]>) -> (r: (
        RecordStore,
        LoadReport,
    ))
        ensures
            store_wf(r.0@),
            r.0@ == spec_load(file_lines(registry_text), file_lines(ledger_text)).0,
            skipped_view(r.1.registry_skipped@) == spec_load(
                file_lines(registry_text),
                file_lines(ledger_text),
            ).1,
            skipped_view(r.1.ledger_skipped@) == spec_load(
                file_lines(registry_text),
                file_lines(ledger_text),
            ).2,
    {
        let reg_lines: Vec<Vec<u8>> = match registry_text {
            Some(t) => split_lines(t),
            None => Vec::new(),
        };
        let led_lines: Vec<Vec<u8>> = match ledger_text {
            Some(t) => split_lines(t),
            None => Vec::new(),
        };
        proof {
            assert(seq_views(reg_lines@) =~= file_lines(registry_text));
            assert(seq_views(led_lines@) =~= file_lines(ledger_text));
        }
        let (mut store, registry_skipped) = RecordStore::load_registry_lines(&reg_lines);
        let ledger_skipped = store.apply_ledger_lines(&led_lines);
        (store, LoadReport { registry_skipped, ledger_skipped })
    }

    /// The entries in the order the ledger is written: descending
    /// wins, ties in registration order.
    pub fn ranked(&self) -> (r: Vec<LedgerEntry>)
        ensures
            rows_view(r@) == spec_ranked(self@),
    {
        let mut rows: Vec<LedgerEntry> = Vec::new();
        let n: usize = self.entries.len();
        let mut i: usize = 0;
        proof {
            assert(self@.take(0) =~= Seq::<EntryView>::empty());
            assert(rows_view(rows@) =~= spec_ranked(self@.take(0)));
        }
        while i < n
            invariant
                0 <= i <= n,
                n == self@.len(),
                rows_view(rows@) == spec_ranked(self@.take(i as int)),
            decreases n - i,
        {
            let e = &self.entries[i];
            let item = LedgerEntry {
                name: copy_range(e.name.as_slice(), 0, e.name.len()),
                wins: e.wins,
                losses: e.losses,
            };
            proof {
                assert(e.name@.subrange(0, e.name@.len() as int) =~= e.name@);
                assert(item@ == self@[i as int]);
            }
            let mut p: usize = 0;
            let rlen: usize = rows.len();
            while p < rlen && rows[p].wins >= item.wins
                invariant
                    0 <= p <= rlen,
                    rlen == rows@.len(),
                    forall|q: int| 0 <= q < p ==> (#[trigger] rows@[q]).wins >= item.wins,
                decreases rlen - p,
            {
                p = p + 1;
            }
            let ghost prev = rows_view(rows@);
            proof {
                assert(forall|q: int| 0 <= q < p ==> (#[trigger] prev[q]).wins >= item@.wins);
                lemma_insert_ranked_at(prev, item@, p as int);
            }
            rows.insert(p, item);
            proof {
                assert(rows_view(rows@) =~= prev.take(p as int) + seq![item@] + prev.skip(
                    p as int,
                ));
                assert(self@.take(i as int + 1).drop_last() =~= self@.take(i as int));
                assert(self@.take(i as int + 1).last() == self@[i as int]);
                assert(rows_view(rows@) == spec_ranked(self@.take(i as int + 1)));
            }
            i = i + 1;
        }
        proof {
            assert(self@.take(n as int) =~= self@);
        }
        rows
    }

    /// The registry file's whole content: every name, one per line,
    /// in registration order.
    pub fn persist_registry(&self) -> (out: Vec<u8>)
        ensures
            out@ == reg_bytes(self@),
    {
        let mut out: Vec<u8> = Vec::new();
        let n: usize = self.entries.len();
        let mut i: usize = 0;
        proof {
            assert(self@.take(0) =~= Seq::<EntryView>::empty());
            assert(out@ =~= reg_bytes(self@.take(0)));
        }
        while i < n
            invariant
                0 <= i <= n,
                n == self@.len(),
                out@ == reg_bytes(self@.take(i as int)),
            decreases n - i,
        {
            let e = &self.entries[i];
            proof {
                assert(e@ == self@[i as int]);
            }
            push_all(&mut out, e.name.as_slice());
            out.push(10);
            proof {
                assert(self@.take(i as int + 1) =~= self@.take(i as int).push(self@[i as int]));
                lemma_reg_bytes_push(self@.take(i as int), self@[i as int]);
                assert(out@ =~= reg_bytes(self@.take(i as int)) + self@[i as int].name
                    + seq![10u8]);
            }
            i = i + 1;
        }
        proof {
            assert(self@.take(n as int) =~= self@);
        }
        out
    }

    /// The ledger file's whole content: the header line, then every
    /// entry as a ranked row, best first. Written as a complete
    /// replacement, never patched in place.
    pub fn persist_ledger(&self) -> (out: Vec<u8>)
        ensures
            out@ == ledger_bytes(self@),
    {
        let rows = self.ranked();
        let ghost rv = rows_view(rows@);
        let mut out: Vec<u8> = Vec::new();
        out.push(114);
        out.push(97);
        out.push(110);
        out.push(107);
        out.push(32);
        out.push(110);
        out.push(97);
        out.push(109);
        out.push(101);
        out.push(32);
        out.push(119);
        out.push(105);
        out.push(110);
        out.push(115);
        out.push(32);
        out.push(108);
        out.push(111);
        out.push(115);
        out.push(115);
        out.push(101);
        out.push(115);
        out.push(10);
        proof {
            assert(out@ =~= spec_header() + seq![10u8]);
            assert(rv.take(0) =~= Seq::<EntryView>::empty());
            assert(out@ =~= spec_header() + seq![10u8] + rows_bytes(rv.take(0), 1));
        }
        let n: usize = rows.len();
        let mut i: usize = 0;
        while i < n
            invariant
                0 <= i <= n,
                n == rows@.len(),
                rv == rows_view(rows@),
                out@ == spec_header() + seq![10u8] + rows_bytes(rv.take(i as int), 1),
            decreases n - i,
        {
            let e = &rows[i];
            proof {
                assert(e@ == rv[i as int]);
            }
            let rank_txt = fmt_u64((i as u64) + 1);
            push_all(&mut out, rank_txt.as_slice());
            out.push(32);
            push_all(&mut out, e.name.as_slice());
            out.push(32);
            let wins_txt = fmt_u64(e.wins);
            push_all(&mut out, wins_txt.as_slice());
            out.push(32);
            let losses_txt = fmt_u64(e.losses);
            push_all(&mut out, losses_txt.as_slice());
            out.push(10);
            proof {
                assert(rv.take(i as int + 1) =~= rv.take(i as int).push(rv[i as int]));
                lemma_rows_bytes_push(rv.take(i as int), rv[i as int], 1);
                assert(out@ =~= spec_header() + seq![10u8] + rows_bytes(rv.take(i as int), 1)
                    + row_line(1 + i as nat, rv[i as int]) + seq![10u8]);
            }
            i = i + 1;
        }
        proof {
            assert(rv.take(n as int) =~= rv);
        }
        out
    }
}

} // verus!
