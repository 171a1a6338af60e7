//! The fields of one `info` line, and why their order does not matter.
//!
//! A field is a keyword with what belongs to it: `depth 12`, `nodes 5000`,
//! `multipv 2`, `score cp 31`, `score mate -3`. Where the scan of a line
//! stands before two fields with different keywords, it reports the same
//! whichever of the two comes first.

use crate::parser::rank_of;
use crate::parser::scan;
use crate::parser::LineReport;
use crate::text::read_i32;
use crate::text::read_u32;
use crate::text::read_u64;
use vstd::prelude::*;

verus! {

/// Whether `group` is a depth, a node count or a rank with its value.
pub open spec fn is_plain_field(group: Seq<Seq<char>>) -> bool {
    group.len() == 2 && (group[0] == "depth"@ || group[0] == "nodes"@ || group[0] == "multipv"@)
}

/// Whether `group` is a score with its kind and its value.
pub open spec fn is_score_field(group: Seq<Seq<char>>) -> bool {
    group.len() == 3 && group[0] == "score"@ && (group[1] == "cp"@ || group[1] == "mate"@)
}

/// Whether `group` is one field.
pub open spec fn is_field(group: Seq<Seq<char>>) -> bool {
    is_plain_field(group) || is_score_field(group)
}

/// The report `acc` with what the field `group` says.
pub open spec fn with_field(acc: LineReport, group: Seq<Seq<char>>) -> LineReport {
    if group[0] == "depth"@ {
        match read_u32(group[1]) {
            Some(depth) => LineReport { depth: Some(depth), ..acc },
            None => acc,
        }
    } else if group[0] == "nodes"@ {
        match read_u64(group[1]) {
            Some(nodes) => LineReport { nodes: Some(nodes), ..acc },
            None => acc,
        }
    } else if group[0] == "multipv"@ {
        match read_u32(group[1]) {
            Some(n) => LineReport { rank: rank_of(n), ..acc },
            None => acc,
        }
    } else if group[1] == "cp"@ {
        LineReport { cp: read_i32(group[2]), mate: None, ..acc }
    } else {
        LineReport { mate: read_i32(group[2]), cp: None, ..acc }
    }
}

/// The keywords are different words.
proof fn lemma_keywords_differ()
    ensures
        "depth"@ != "nodes"@,
        "depth"@ != "multipv"@,
        "depth"@ != "score"@,
        "nodes"@ != "multipv"@,
        "nodes"@ != "score"@,
        "multipv"@ != "score"@,
        "cp"@ != "mate"@,
{
    reveal_strlit("depth");
    reveal_strlit("nodes");
    reveal_strlit("multipv");
    reveal_strlit("score");
    reveal_strlit("cp");
    reveal_strlit("mate");
    assert("depth"@[0] != "nodes"@[0]);
    assert("depth"@[0] != "multipv"@[0]);
    assert("depth"@[0] != "score"@[0]);
    assert("nodes"@[0] != "multipv"@[0]);
    assert("nodes"@[0] != "score"@[0]);
    assert("multipv"@[0] != "score"@[0]);
    assert("cp"@[0] != "mate"@[0]);
}

/// Scanning over a field gives the report what the field says, and goes on
/// behind it.
pub proof fn lemma_scan_field(
    fields: Seq<Seq<char>>,
    i: int,
    acc: LineReport,
    group: Seq<Seq<char>>,
)
    requires
        is_field(group),
        0 <= i,
        i + group.len() <= fields.len(),
        fields.subrange(i, i + group.len()) == group,
    ensures
        scan(fields, i, acc) == scan(fields, i + group.len(), with_field(acc, group)),
{
    lemma_keywords_differ();
    assert(fields[i] == group[0]);
    assert(fields[i + 1] == group[1]);
    if is_score_field(group) {
        assert(fields[i + 2] == group[2]);
    }
}

/// What the scan reports from a place on depends on the fields from that
/// place on alone.
pub proof fn lemma_scan_rest(a: Seq<Seq<char>>, b: Seq<Seq<char>>, from: int, acc: LineReport)
    requires
        a.len() == b.len(),
        0 <= from,
        forall|k: int| from <= k < a.len() ==> a[k] == b[k],
    ensures
        scan(a, from, acc) == scan(b, from, acc),
    decreases a.len() - from,
{
    if from < a.len() {
        let i = from;
        assert(a[i] == b[i]);
        if a[i] == "depth"@ || a[i] == "nodes"@ || a[i] == "multipv"@ {
            if i + 1 < a.len() {
                assert(a[i + 1] == b[i + 1]);
                if a[i] == "depth"@ {
                    match read_u32(a[i + 1]) {
                        Some(depth) => lemma_scan_rest(
                            a,
                            b,
                            i + 2,
                            LineReport { depth: Some(depth), ..acc },
                        ),
                        None => lemma_scan_rest(a, b, i + 2, acc),
                    }
                } else if a[i] == "nodes"@ {
                    match read_u64(a[i + 1]) {
                        Some(nodes) => lemma_scan_rest(
                            a,
                            b,
                            i + 2,
                            LineReport { nodes: Some(nodes), ..acc },
                        ),
                        None => lemma_scan_rest(a, b, i + 2, acc),
                    }
                } else {
                    match read_u32(a[i + 1]) {
                        Some(n) => lemma_scan_rest(
                            a,
                            b,
                            i + 2,
                            LineReport { rank: rank_of(n), ..acc },
                        ),
                        None => lemma_scan_rest(a, b, i + 2, acc),
                    }
                }
            }
        } else if a[i] == "score"@ {
            if i + 1 < a.len() {
                assert(a[i + 1] == b[i + 1]);
                if a[i + 1] == "cp"@ {
                    if i + 2 < a.len() {
                        assert(a[i + 2] == b[i + 2]);
                        lemma_scan_rest(
                            a,
                            b,
                            i + 3,
                            LineReport { cp: read_i32(a[i + 2]), mate: None, ..acc },
                        );
                    }
                } else if a[i + 1] == "mate"@ {
                    if i + 2 < a.len() {
                        assert(a[i + 2] == b[i + 2]);
                        lemma_scan_rest(
                            a,
                            b,
                            i + 3,
                            LineReport { mate: read_i32(a[i + 2]), cp: None, ..acc },
                        );
                    }
                } else {
                    lemma_scan_rest(a, b, i + 2, acc);
                }
            }
        } else if a[i] == "pv"@ {
            assert(a.subrange(i + 1, a.len() as int) =~= b.subrange(i + 1, b.len() as int));
        } else {
            lemma_scan_rest(a, b, i + 1, acc);
        }
    }
}

/// Two fields with different keywords say the same in either order.
pub proof fn lemma_fields_commute(acc: LineReport, first: Seq<Seq<char>>, second: Seq<Seq<char>>)
    requires
        is_field(first),
        is_field(second),
        first[0] != second[0],
    ensures
        with_field(with_field(acc, first), second) == with_field(with_field(acc, second), first),
{
    lemma_keywords_differ();
}

/// Where the scan of a line stands before two fields with different
/// keywords, it reports the same whichever of the two comes first.
pub proof fn lemma_field_order_is_free(
    before: Seq<Seq<char>>,
    first: Seq<Seq<char>>,
    second: Seq<Seq<char>>,
    after: Seq<Seq<char>>,
    acc: LineReport,
)
    requires
        is_field(first),
        is_field(second),
        first[0] != second[0],
    ensures
        scan(before + first + second + after, before.len() as int, acc) == scan(
            before + second + first + after,
            before.len() as int,
            acc,
        ),
{
    let one = before + first + second + after;
    let other = before + second + first + after;
    let i = before.len() as int;
    let behind = i + first.len() + second.len();
    assert(one.subrange(i, i + first.len()) =~= first);
    assert(one.subrange(i + first.len(), behind) =~= second);
    assert(other.subrange(i, i + second.len()) =~= second);
    assert(other.subrange(i + second.len(), behind) =~= first);
    lemma_scan_field(one, i, acc, first);
    lemma_scan_field(one, i + first.len(), with_field(acc, first), second);
    lemma_scan_field(other, i, acc, second);
    lemma_scan_field(other, i + second.len(), with_field(acc, second), first);
    lemma_fields_commute(acc, first, second);
    assert forall|k: int| behind <= k < one.len() implies one[k] == other[k] by {
        assert(one[k] == after[k - behind]);
        assert(other[k] == after[k - behind]);
    }
    lemma_scan_rest(one, other, behind, with_field(with_field(acc, first), second));
}

} // verus!
