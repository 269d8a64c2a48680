//! Rendering a group of findings.
//!
//! Plain-text mode lists the group's fingerprints, one per line, sorted
//! ascending by ordinal string comparison.  Structured-dump mode hands the
//! records back untouched and in their original order, ready to be
//! serialized.

use vstd::prelude::*;
use vstd::string::StrSliceExecFns;
use crate::finding::Finding;

verus! {

/// Ordinal order on strings: `a` sorts no later than `b`, comparing code
/// points position by position, a prefix before its extensions.
pub open spec fn str_le(a: Seq<char>, b: Seq<char>) -> bool
    decreases a.len(),
{
    if a.len() == 0 {
        true
    } else if b.len() == 0 {
        false
    } else if (a[0] as u32) < (b[0] as u32) {
        true
    } else if (b[0] as u32) < (a[0] as u32) {
        false
    } else {
        str_le(a.drop_first(), b.drop_first())
    }
}

/// Ordinal order is total: of any two strings, one sorts no later than the
/// other.
pub proof fn lemma_str_le_total(a: Seq<char>, b: Seq<char>)
    ensures
        str_le(a, b) || str_le(b, a),
    decreases a.len(),
{
    if a.len() == 0 || b.len() == 0 {
    } else if (a[0] as u32) == (b[0] as u32) {
        lemma_str_le_total(a.drop_first(), b.drop_first());
    }
}

/// Ordinal order is transitive.
pub proof fn lemma_str_le_trans(a: Seq<char>, b: Seq<char>, c: Seq<char>)
    requires
        str_le(a, b),
        str_le(b, c),
    ensures
        str_le(a, c),
    decreases a.len(),
{
    if a.len() == 0 || b.len() == 0 || c.len() == 0 {
    } else if (a[0] as u32) == (b[0] as u32) && (b[0] as u32) == (c[0] as u32) {
        lemma_str_le_trans(a.drop_first(), b.drop_first(), c.drop_first());
    }
}

/// Compares two strings in ordinal order.
fn string_le(a: &str, b: &str) -> (r: bool)
    ensures
        r == str_le(a@, b@),
{
    let alen = a.unicode_len();
    let blen = b.unicode_len();
    proof {
        assert(a@.skip(0) =~= a@);
        assert(b@.skip(0) =~= b@);
    }
    let mut i: usize = 0;
    loop
        invariant
            i <= alen,
            i <= blen,
            alen == a@.len(),
            blen == b@.len(),
            str_le(a@, b@) == str_le(a@.skip(i as int), b@.skip(i as int)),
        decreases alen - i,
    {
        if i >= alen {
            return true;
        }
        if i >= blen {
            return false;
        }
        let ca = a.get_char(i) as u32;
        let cb = b.get_char(i) as u32;
        proof {
            assert(a@.skip(i as int)[0] == a@[i as int]);
            assert(b@.skip(i as int)[0] == b@[i as int]);
        }
        if ca < cb {
            return true;
        }
        if cb < ca {
            return false;
        }
        proof {
            assert(a@.skip(i as int).drop_first() =~= a@.skip(i as int + 1));
            assert(b@.skip(i as int).drop_first() =~= b@.skip(i as int + 1));
        }
        i = i + 1;
    }
}

/// The strings of `s` stand in ascending ordinal order.
pub open spec fn sorted_strings(s: Seq<String>) -> bool {
    forall|i: int, j: int| 0 <= i < j < s.len() ==> str_le(#[trigger] s[i]@, #[trigger] s[j]@)
}

/// The character sequences of a sequence of strings.
pub open spec fn string_views(s: Seq<String>) -> Seq<Seq<char>> {
    s.map_values(|x: String| x@)
}

/// The fingerprints of a group of findings, in the group's order.
pub open spec fn fingerprints_of(s: Seq<Finding>) -> Seq<Seq<char>> {
    s.map_values(|f: Finding| f.fingerprint@)
}

/// Finds the position before which `x` belongs in the sorted `v`: everything
/// earlier sorts no later than `x`, everything from there on no earlier.
fn lower_insert_pos(v: &Vec<String>, x: &str) -> (pos: usize)
    requires
        sorted_strings(v@),
    ensures
        pos <= v@.len(),
        forall|m: int| 0 <= m < pos ==> str_le(#[trigger] v@[m]@, x@),
        forall|m: int| pos <= m < v@.len() ==> str_le(x@, #[trigger] v@[m]@),
{
    let mut pos: usize = 0;
    while pos < v.len()
        invariant
            pos <= v@.len(),
            sorted_strings(v@),
            forall|m: int| 0 <= m < pos ==> str_le(#[trigger] v@[m]@, x@),
        decreases v@.len() - pos,
    {
        if !string_le(&v[pos], x) {
            proof {
                lemma_str_le_total(v@[pos as int]@, x@);
                assert forall|m: int| pos <= m < v@.len() implies str_le(
                    x@,
                    #[trigger] v@[m]@,
                ) by {
                    if pos < m {
                        lemma_str_le_trans(x@, v@[pos as int]@, v@[m]@);
                    }
                }
            }
            return pos;
        }
        pos = pos + 1;
    }
    pos
}

/// Inserts `x` into the sorted `v`, keeping it sorted; the contents grow by
/// exactly `x`.
fn insert_sorted(v: &mut Vec<String>, x: String)
    requires
        sorted_strings(old(v)@),
    ensures
        final(v)@.len() == old(v)@.len() + 1,
        sorted_strings(final(v)@),
        string_views(final(v)@).to_multiset() == string_views(old(v)@).to_multiset().insert(x@),
{
    broadcast use vstd::seq_lib::group_to_multiset_ensures;

    let ghost before = v@;
    let pos = lower_insert_pos(v, x.as_str());
    v.insert(pos, x);
    proof {
        let after = v@;
        assert(after == before.insert(pos as int, x));
        assert forall|i: int, j: int| 0 <= i < j < after.len() implies str_le(
            #[trigger] after[i]@,
            #[trigger] after[j]@,
        ) by {
            if i < pos {
                assert(after[i] == before[i]);
            } else if i == pos {
                assert(after[i] == x);
            } else {
                assert(after[i] == before[i - 1]);
            }
            if j < pos {
                assert(after[j] == before[j]);
            } else if j == pos {
                assert(after[j] == x);
            } else {
                assert(after[j] == before[j - 1]);
            }
        }
        let w = string_views(after);
        assert(w.remove(pos as int) =~= string_views(before));
        assert(w[pos as int] == x@);
        assert(w.remove(pos as int).to_multiset() == w.to_multiset().remove(w[pos as int]));
        assert(w.contains(x@));
        assert(w.to_multiset().count(x@) > 0);
        assert(w.to_multiset() =~= string_views(before).to_multiset().insert(x@));
    }
}

/// Collects the fingerprints of `group` and sorts them ascending by ordinal
/// string comparison.  The result has one line per finding, and its lines are
/// exactly the group's fingerprints.
pub fn sorted_fingerprints(group: &Vec<Finding>) -> (r: Vec<String>)
    ensures
        r@.len() == group@.len(),
        sorted_strings(r@),
        string_views(r@).to_multiset() == fingerprints_of(group@).to_multiset(),
{
    let mut out: Vec<String> = Vec::new();
    proof {
        assert(string_views(out@) =~= Seq::<Seq<char>>::empty());
        assert(fingerprints_of(group@.take(0)) =~= Seq::<Seq<char>>::empty());
    }
    let mut i: usize = 0;
    while i < group.len()
        invariant
            i <= group@.len(),
            out@.len() == i,
            sorted_strings(out@),
            string_views(out@).to_multiset() == fingerprints_of(group@.take(i as int)).to_multiset(),
        decreases group@.len() - i,
    {
        let fp = group[i].fingerprint.clone();
        insert_sorted(&mut out, fp);
        proof {
            broadcast use vstd::seq_lib::group_to_multiset_ensures;

            let prev = fingerprints_of(group@.take(i as int));
            let next = fingerprints_of(group@.take(i + 1));
            assert(next =~= prev.push(group@[i as int].fingerprint@));
            assert(prev.push(group@[i as int].fingerprint@).to_multiset() == prev.to_multiset().insert(
                group@[i as int].fingerprint@,
            ));
            assert(string_views(out@).to_multiset() == next.to_multiset());
        }
        i = i + 1;
    }
    proof {
        assert(group@.take(group@.len() as int) =~= group@);
    }
    out
}

/// How a group is rendered.
pub enum RenderMode {
    /// One line per finding: the fingerprints, sorted ascending.
    PlainFingerprints,
    /// The records themselves, untouched and in original order, for a
    /// structured serialized dump.
    StructuredDump,
}

/// The rendered form of a group: fingerprint lines, or the records to dump.
pub enum Rendered {
    Lines(Vec<String>),
    Records(Vec<Finding>),
}

/// What plain-text rendering owes: one line per finding of the group, the
/// lines being exactly the group's fingerprints in ascending ordinal order.
pub open spec fn plain_lines_ok(group: Seq<Finding>, lines: Seq<String>) -> bool {
    &&& lines.len() == group.len()
    &&& sorted_strings(lines)
    &&& string_views(lines).to_multiset() == fingerprints_of(group).to_multiset()
}

/// Renders a group in the chosen mode.  Plain text yields the sorted
/// fingerprint lines; a structured dump yields every record unchanged, in the
/// group's original order.
pub fn render(group: Vec<Finding>, mode: RenderMode) -> (r: Rendered)
    ensures
        match r {
            Rendered::Lines(lines) => mode == RenderMode::PlainFingerprints && plain_lines_ok(
                group@,
                lines@,
            ),
            Rendered::Records(records) => mode == RenderMode::StructuredDump && records == group,
        },
{
    match mode {
        RenderMode::PlainFingerprints => Rendered::Lines(sorted_fingerprints(&group)),
        RenderMode::StructuredDump => Rendered::Records(group),
    }
}

} // verus!
