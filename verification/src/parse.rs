//! The LCOV parser: turns raw LCOV trace text into a [`CoverageReport`].

use vstd::prelude::*;

use crate::report::{
    branch_keys_sorted, branches_model, files_model, lemma_lex_lt_asym, lemma_lex_lt_irrefl,
    lemma_lex_lt_trans, lex_lt, report_wf, CoverageRecord, CoverageReport, PathOrder, RecordModel,
};
use crate::report::compare_bytes;
use crate::text::{
    is_u32_str, lines_of, parse_u32, spec_trim, split_commas, split_fields, strip_one_cr,
    taken_uncovered, taken_uncovered_bytes, trim_bytes, u32_str_value, fields_view,
    lemma_find_byte_is,
};

verus! {

/// The one fatal parse failure: a required numeric field of a `DA:` or
/// `BRDA:` line is missing or not an unsigned decimal integer.
#[derive(Clone, Copy, Debug, PartialEq, Eq)]
pub enum ParseError {
    MalformedField,
}

pub open spec fn is_sf(l: Seq<u8>) -> bool {
    l.len() >= 3 && l[0] == 'S' as u8 && l[1] == 'F' as u8 && l[2] == ':' as u8
}

pub open spec fn is_da(l: Seq<u8>) -> bool {
    l.len() >= 3 && l[0] == 'D' as u8 && l[1] == 'A' as u8 && l[2] == ':' as u8
}

pub open spec fn is_brda(l: Seq<u8>) -> bool {
    l.len() >= 5 && l[0] == 'B' as u8 && l[1] == 'R' as u8 && l[2] == 'D' as u8 && l[3] == 'A' as u8
        && l[4] == ':' as u8
}

/// The required numeric fields of a `DA:` line are present and parseable.
pub open spec fn da_ok(l: Seq<u8>) -> bool {
    let parts = split_commas(l.skip(3));
    parts.len() >= 2 && is_u32_str(parts[0]) && is_u32_str(parts[1])
}

/// The required numeric fields of a `BRDA:` line are present and parseable.
pub open spec fn brda_ok(l: Seq<u8>) -> bool {
    let parts = split_commas(l.skip(5));
    parts.len() >= 4 && is_u32_str(parts[0]) && is_u32_str(parts[1]) && is_u32_str(parts[2])
}

/// A line the parser accepts: anything, except a `DA:`/`BRDA:` line whose
/// required numeric fields are malformed.
pub open spec fn line_ok(l: Seq<u8>) -> bool {
    &&& is_da(l) ==> da_ok(l)
    &&& is_brda(l) ==> brda_ok(l)
}

pub open spec fn all_ok(lines: Seq<Seq<u8>>) -> bool {
    forall|i: int| 0 <= i < lines.len() ==> line_ok(#[trigger] lines[i])
}

/// The parser state: the current source file, if any `SF:` line was seen,
/// and the records accumulated so far.
pub ghost struct ParseState {
    pub current: Option<Seq<u8>>,
    pub files: Seq<(Seq<u8>, RecordModel)>,
}

/// `files` with line number `n` appended to `path`'s record, the record
/// created (at its sorted position) if absent.
pub open spec fn add_line(files: Seq<(Seq<u8>, RecordModel)>, path: Seq<u8>, n: u32) -> Seq<
    (Seq<u8>, RecordModel),
>
    decreases files.len(),
{
    if files.len() == 0 {
        seq![(path, RecordModel { lines: seq![n], branches: Seq::empty() })]
    } else if lex_lt(path, files[0].0) {
        seq![(path, RecordModel { lines: seq![n], branches: Seq::empty() })] + files
    } else if path == files[0].0 {
        seq![
            (files[0].0, RecordModel { lines: files[0].1.lines.push(n), branches: files[0].1.branches }),
        ] + files.drop_first()
    } else {
        seq![files[0]] + add_line(files.drop_first(), path, n)
    }
}

/// `branches` with the tuple `(blk, br, -1)` appended at line `ln`, the
/// per-line list created (at its sorted position) if absent.
pub open spec fn add_branch_entry(
    branches: Seq<(u32, Seq<(u32, u32, i32)>)>,
    ln: u32,
    blk: u32,
    br: u32,
) -> Seq<(u32, Seq<(u32, u32, i32)>)>
    decreases branches.len(),
{
    if branches.len() == 0 {
        seq![(ln, seq![(blk, br, -1 as i32)])]
    } else if ln < branches[0].0 {
        seq![(ln, seq![(blk, br, -1 as i32)])] + branches
    } else if ln == branches[0].0 {
        seq![(ln, branches[0].1.push((blk, br, -1 as i32)))] + branches.drop_first()
    } else {
        seq![branches[0]] + add_branch_entry(branches.drop_first(), ln, blk, br)
    }
}

/// `files` with an uncovered-branch tuple recorded for `path` at `ln`.
pub open spec fn add_branch(
    files: Seq<(Seq<u8>, RecordModel)>,
    path: Seq<u8>,
    ln: u32,
    blk: u32,
    br: u32,
) -> Seq<(Seq<u8>, RecordModel)>
    decreases files.len(),
{
    if files.len() == 0 {
        seq![
            (path, RecordModel { lines: Seq::empty(), branches: add_branch_entry(Seq::empty(), ln, blk, br) }),
        ]
    } else if lex_lt(path, files[0].0) {
        seq![
            (path, RecordModel { lines: Seq::empty(), branches: add_branch_entry(Seq::empty(), ln, blk, br) }),
        ] + files
    } else if path == files[0].0 {
        seq![
            (files[0].0, RecordModel { lines: files[0].1.lines, branches: add_branch_entry(files[0].1.branches, ln, blk, br) }),
        ] + files.drop_first()
    } else {
        seq![files[0]] + add_branch(files.drop_first(), path, ln, blk, br)
    }
}

/// One step of the parser on a single line.
pub open spec fn step(st: ParseState, l: Seq<u8>) -> ParseState {
    if is_sf(l) {
        ParseState { current: Some(spec_trim(l.skip(3))), files: st.files }
    } else if is_da(l) && da_ok(l) {
        let parts = split_commas(l.skip(3));
        if u32_str_value(parts[1]) == 0 && st.current is Some {
            ParseState {
                current: st.current,
                files: add_line(st.files, st.current->Some_0, u32_str_value(parts[0]) as u32),
            }
        } else {
            st
        }
    } else if is_brda(l) && brda_ok(l) {
        let parts = split_commas(l.skip(5));
        if taken_uncovered(parts[3]) && st.current is Some {
            ParseState {
                current: st.current,
                files: add_branch(
                    st.files,
                    st.current->Some_0,
                    u32_str_value(parts[0]) as u32,
                    u32_str_value(parts[1]) as u32,
                    u32_str_value(parts[2]) as u32,
                ),
            }
        } else {
            st
        }
    } else {
        st
    }
}

/// The parser folded over a sequence of lines, starting from no current
/// file and no records.
pub open spec fn fold_lines(lines: Seq<Seq<u8>>) -> ParseState
    decreases lines.len(),
{
    if lines.len() == 0 {
        ParseState { current: None, files: Seq::empty() }
    } else {
        step(fold_lines(lines.drop_last()), lines.last())
    }
}

pub open spec fn cur_view(c: Option<Vec<u8>>) -> Option<Seq<u8>> {
    match c {
        Option::Some(v) => Some(v@),
        Option::None => None,
    }
}

proof fn lemma_add_line_skip(files: Seq<(Seq<u8>, RecordModel)>, path: Seq<u8>, n: u32, i: int)
    requires
        0 <= i <= files.len(),
        forall|k: int| 0 <= k < i ==> lex_lt((#[trigger] files[k]).0, path),
    ensures
        add_line(files, path, n) == files.take(i) + add_line(files.skip(i), path, n),
    decreases i,
{
    if i == 0 {
        assert(files.take(0) =~= Seq::<(Seq<u8>, RecordModel)>::empty());
        assert(files.skip(0) =~= files);
        assert(files.take(0) + add_line(files, path, n) =~= add_line(files, path, n));
    } else {
        lemma_lex_lt_asym(files[0].0, path);
        assert(add_line(files, path, n) == seq![files[0]] + add_line(
            files.drop_first(),
            path,
            n,
        ));
        assert(forall|k: int|
            0 <= k < i - 1 ==> (#[trigger] files.drop_first()[k]) == files[k + 1]);
        lemma_add_line_skip(files.drop_first(), path, n, i - 1);
        assert(files.drop_first().take(i - 1) =~= files.take(i).drop_first());
        assert(files.drop_first().skip(i - 1) =~= files.skip(i));
        assert(seq![files[0]] + (files.take(i).drop_first() + add_line(files.skip(i), path, n))
            =~= files.take(i) + add_line(files.skip(i), path, n));
    }
}

proof fn lemma_add_branch_skip(
    files: Seq<(Seq<u8>, RecordModel)>,
    path: Seq<u8>,
    ln: u32,
    blk: u32,
    br: u32,
    i: int,
)
    requires
        0 <= i <= files.len(),
        forall|k: int| 0 <= k < i ==> lex_lt((#[trigger] files[k]).0, path),
    ensures
        add_branch(files, path, ln, blk, br) == files.take(i) + add_branch(
            files.skip(i),
            path,
            ln,
            blk,
            br,
        ),
    decreases i,
{
    if i == 0 {
        assert(files.take(0) =~= Seq::<(Seq<u8>, RecordModel)>::empty());
        assert(files.skip(0) =~= files);
        assert(files.take(0) + add_branch(files, path, ln, blk, br) =~= add_branch(
            files,
            path,
            ln,
            blk,
            br,
        ));
    } else {
        lemma_lex_lt_asym(files[0].0, path);
        assert(forall|k: int|
            0 <= k < i - 1 ==> (#[trigger] files.drop_first()[k]) == files[k + 1]);
        lemma_add_branch_skip(files.drop_first(), path, ln, blk, br, i - 1);
        assert(files.drop_first().take(i - 1) =~= files.take(i).drop_first());
        assert(files.drop_first().skip(i - 1) =~= files.skip(i));
        assert(seq![files[0]] + (files.take(i).drop_first() + add_branch(
            files.skip(i),
            path,
            ln,
            blk,
            br,
        )) =~= files.take(i) + add_branch(files.skip(i), path, ln, blk, br));
    }
}

proof fn lemma_add_branch_entry_skip(
    branches: Seq<(u32, Seq<(u32, u32, i32)>)>,
    ln: u32,
    blk: u32,
    br: u32,
    i: int,
)
    requires
        0 <= i <= branches.len(),
        forall|k: int| 0 <= k < i ==> (#[trigger] branches[k]).0 < ln,
    ensures
        add_branch_entry(branches, ln, blk, br) == branches.take(i) + add_branch_entry(
            branches.skip(i),
            ln,
            blk,
            br,
        ),
    decreases i,
{
    if i == 0 {
        assert(branches.take(0) =~= Seq::<(u32, Seq<(u32, u32, i32)>)>::empty());
        assert(branches.skip(0) =~= branches);
        assert(branches.take(0) + add_branch_entry(branches, ln, blk, br) =~= add_branch_entry(
            branches,
            ln,
            blk,
            br,
        ));
    } else {
        assert(forall|k: int|
            0 <= k < i - 1 ==> (#[trigger] branches.drop_first()[k]) == branches[k + 1]);
        lemma_add_branch_entry_skip(branches.drop_first(), ln, blk, br, i - 1);
        assert(branches.drop_first().take(i - 1) =~= branches.take(i).drop_first());
        assert(branches.drop_first().skip(i - 1) =~= branches.skip(i));
        assert(seq![branches[0]] + (branches.take(i).drop_first() + add_branch_entry(
            branches.skip(i),
            ln,
            blk,
            br,
        )) =~= branches.take(i) + add_branch_entry(branches.skip(i), ln, blk, br));
    }
}

fn clone_bytes(v: &Vec<u8>) -> (r: Vec<u8>)
    ensures
        r@ == v@,
{
    vstd::slice::slice_to_vec(v.as_slice())
}

/// Appends uncovered line `n` to `path`'s record, creating the record at
/// its sorted position if absent.
fn add_uncovered_line(files: &mut Vec<(Vec<u8>, CoverageRecord)>, path: &Vec<u8>, n: u32)
    requires
        report_wf(files_model(old(files)@)),
    ensures
        files_model(final(files)@) == add_line(files_model(old(files)@), path@, n),
        report_wf(files_model(final(files)@)),
{
    let ghost m = files_model(files@);
    let mut idx: usize = 0;
    let mut stopped = false;
    while idx < files.len() && !stopped
        invariant
            0 <= idx <= files@.len(),
            m == files_model(files@),
            report_wf(m),
            forall|k: int| 0 <= k < idx ==> lex_lt((#[trigger] m[k]).0, path@),
            stopped ==> idx < files@.len() && !lex_lt(m[idx as int].0, path@),
        decreases files@.len() - idx + (if stopped {
            0int
        } else {
            1int
        }),
    {
        let o = compare_bytes(files[idx].0.as_slice(), path.as_slice());
        proof {
            assert(m[idx as int].0 == files@[idx as int].0@);
        }
        if matches!(o, PathOrder::Before) {
            idx = idx + 1;
        } else {
            proof {
                lemma_lex_lt_irrefl(m[idx as int].0);
            }
            stopped = true;
        }
    }
    proof {
        lemma_add_line_skip(m, path@, n, idx as int);
    }
    if idx < files.len() {
        let o = compare_bytes(files[idx].0.as_slice(), path.as_slice());
        let same = matches!(o, PathOrder::Same);
        proof {
            assert(m[idx as int] == (files@[idx as int].0@, files@[idx as int].1@));
            if !same {
                assert(lex_lt(path@, m[idx as int].0));
            }
        }
        if same {
            let mut e = files.remove(idx);
            e.1.lines.push(n);
            files.insert(idx, e);
            proof {
                lemma_lex_lt_irrefl(path@);
                let updated = (
                    m[idx as int].0,
                    RecordModel {
                        lines: m[idx as int].1.lines.push(n),
                        branches: m[idx as int].1.branches,
                    },
                );
                assert(add_line(m.skip(idx as int), path@, n) =~= seq![updated] + m.skip(
                    idx as int,
                ).drop_first());
                assert(files_model(files@) =~= m.update(idx as int, updated));
                assert(files_model(files@) =~= m.take(idx as int) + (seq![updated] + m.skip(
                    idx as int,
                ).drop_first()));
                assert forall|i: int, j: int|
                    0 <= i < j < files_model(files@).len() implies lex_lt(
                    (#[trigger] files_model(files@)[i]).0,
                    (#[trigger] files_model(files@)[j]).0,
                ) by {
                    assert(files_model(files@)[i].0 == m[i].0);
                    assert(files_model(files@)[j].0 == m[j].0);
                }
            }
        } else {
            let mut rec = CoverageRecord { lines: Vec::new(), branches: Vec::new() };
            rec.lines.push(n);
            let pair = (clone_bytes(path), rec);
            proof {
                assert(pair.1@.lines =~= seq![n]);
                assert(pair.1@.branches =~= Seq::<(u32, Seq<(u32, u32, i32)>)>::empty());
            }
            files.insert(idx, pair);
            proof {
                let fresh = (path@, RecordModel { lines: seq![n], branches: Seq::empty() });
                assert(lex_lt(path@, m[idx as int].0));
                assert(add_line(m.skip(idx as int), path@, n) =~= seq![fresh] + m.skip(
                    idx as int,
                ));
                assert(files_model(files@) =~= m.insert(idx as int, fresh));
                assert(files_model(files@) =~= m.take(idx as int) + (seq![fresh] + m.skip(
                    idx as int,
                )));
                assert forall|i: int, j: int|
                    0 <= i < j < files_model(files@).len() implies lex_lt(
                    (#[trigger] files_model(files@)[i]).0,
                    (#[trigger] files_model(files@)[j]).0,
                ) by {
                    let fm = files_model(files@);
                    if i < idx && j == idx {
                    } else if i == idx && j > idx {
                        assert(fm[j] == m[j - 1]);
                        if j - 1 > idx {
                            lemma_lex_lt_trans(path@, m[idx as int].0, m[j - 1].0);
                        }
                    } else if i < idx && j > idx {
                        assert(fm[i] == m[i]);
                        assert(fm[j] == m[j - 1]);
                    } else if i > idx && j > idx {
                        assert(fm[i] == m[i - 1]);
                        assert(fm[j] == m[j - 1]);
                    }
                }
            }
        }
    } else {
        let mut rec = CoverageRecord { lines: Vec::new(), branches: Vec::new() };
        rec.lines.push(n);
        let pair = (clone_bytes(path), rec);
        proof {
            assert(pair.1@.lines =~= seq![n]);
            assert(pair.1@.branches =~= Seq::<(u32, Seq<(u32, u32, i32)>)>::empty());
        }
        files.push(pair);
        proof {
            let fresh = (path@, RecordModel { lines: seq![n], branches: Seq::empty() });
            assert(m.skip(idx as int) =~= Seq::<(Seq<u8>, RecordModel)>::empty());
            assert(add_line(m.skip(idx as int), path@, n) =~= seq![fresh]);
            assert(files_model(files@) =~= m.push(fresh));
            assert(files_model(files@) =~= m.take(idx as int) + seq![fresh]);
            assert forall|i: int, j: int|
                0 <= i < j < files_model(files@).len() implies lex_lt(
                (#[trigger] files_model(files@)[i]).0,
                (#[trigger] files_model(files@)[j]).0,
            ) by {
                if j < m.len() {
                    assert(files_model(files@)[i] == m[i]);
                    assert(files_model(files@)[j] == m[j]);
                } else {
                    assert(files_model(files@)[i] == m[i]);
                }
            }
        }
    }
}

} // verus!

verus! {

/// Appends `(blk, br, -1)` to the per-line list for `ln`, creating the
/// list at its sorted position if absent.
fn add_branch_to_list(branches: &mut Vec<(u32, Vec<(u32, u32, i32)>)>, ln: u32, blk: u32, br: u32)
    requires
        branch_keys_sorted(branches_model(old(branches)@)),
    ensures
        branches_model(final(branches)@) == add_branch_entry(
            branches_model(old(branches)@),
            ln,
            blk,
            br,
        ),
        branch_keys_sorted(branches_model(final(branches)@)),
{
    let ghost bm = branches_model(branches@);
    let mut bidx: usize = 0;
    while bidx < branches.len() && branches[bidx].0 < ln
        invariant
            0 <= bidx <= branches@.len(),
            bm == branches_model(branches@),
            branch_keys_sorted(bm),
            forall|k: int| 0 <= k < bidx ==> (#[trigger] bm[k]).0 < ln,
        decreases branches@.len() - bidx,
    {
        proof {
            assert(bm[bidx as int].0 == branches@[bidx as int].0);
        }
        bidx = bidx + 1;
    }
    proof {
        lemma_add_branch_entry_skip(bm, ln, blk, br, bidx as int);
        if (bidx as int) < bm.len() {
            assert(bm[bidx as int].0 == branches@[bidx as int].0);
        }
    }
    if bidx < branches.len() && branches[bidx].0 == ln {
        let mut be = branches.remove(bidx);
        be.1.push((blk, br, -1));
        branches.insert(bidx, be);
        proof {
            let updated = (ln, bm[bidx as int].1.push((blk, br, -1 as i32)));
            assert(add_branch_entry(bm.skip(bidx as int), ln, blk, br) =~= seq![updated] + bm.skip(
                bidx as int,
            ).drop_first());
            assert(branches_model(branches@) =~= bm.update(bidx as int, updated));
            assert(branches_model(branches@) =~= bm.take(bidx as int) + (seq![updated] + bm.skip(
                bidx as int,
            ).drop_first()));
            assert forall|i: int, j: int|
                0 <= i < j < branches_model(branches@).len() implies (#[trigger] branches_model(
                branches@,
            )[i]).0 < (#[trigger] branches_model(branches@)[j]).0 by {
                assert(branches_model(branches@)[i].0 == bm[i].0);
                assert(branches_model(branches@)[j].0 == bm[j].0);
            }
        }
    } else {
        let mut v: Vec<(u32, u32, i32)> = Vec::new();
        v.push((blk, br, -1));
        let pair = (ln, v);
        proof {
            assert(pair.1@ =~= seq![(blk, br, -1 as i32)]);
        }
        branches.insert(bidx, pair);
        proof {
            let fresh = (ln, seq![(blk, br, -1 as i32)]);
            if (bidx as int) < bm.len() {
                assert(ln < bm[bidx as int].0);
                assert(add_branch_entry(bm.skip(bidx as int), ln, blk, br) =~= seq![fresh]
                    + bm.skip(bidx as int));
            } else {
                assert(bm.skip(bidx as int) =~= Seq::<(u32, Seq<(u32, u32, i32)>)>::empty());
                assert(add_branch_entry(bm.skip(bidx as int), ln, blk, br) =~= seq![fresh]);
            }
            assert(branches_model(branches@) =~= bm.insert(bidx as int, fresh));
            assert(branches_model(branches@) =~= bm.take(bidx as int) + (seq![fresh] + bm.skip(
                bidx as int,
            )));
            assert forall|i: int, j: int|
                0 <= i < j < branches_model(branches@).len() implies (#[trigger] branches_model(
                branches@,
            )[i]).0 < (#[trigger] branches_model(branches@)[j]).0 by {
                let nb = branches_model(branches@);
                if i < bidx && j == bidx {
                    assert(nb[i].0 == bm[i].0);
                } else if i == bidx && j > bidx {
                    assert(nb[j].0 == bm[j - 1].0);
                } else if i < bidx && j > bidx {
                    assert(nb[i].0 == bm[i].0);
                    assert(nb[j].0 == bm[j - 1].0);
                } else if i > bidx {
                    assert(nb[i].0 == bm[i - 1].0);
                    assert(nb[j].0 == bm[j - 1].0);
                }
            }
        }
    }
}

/// Records the uncovered-branch tuple `(blk, br, -1)` for `path` at line
/// `ln`, creating the record at its sorted position if absent.
fn add_uncovered_branch(
    files: &mut Vec<(Vec<u8>, CoverageRecord)>,
    path: &Vec<u8>,
    ln: u32,
    blk: u32,
    br: u32,
)
    requires
        report_wf(files_model(old(files)@)),
    ensures
        files_model(final(files)@) == add_branch(files_model(old(files)@), path@, ln, blk, br),
        report_wf(files_model(final(files)@)),
{
    let ghost m = files_model(files@);
    let mut idx: usize = 0;
    let mut stopped = false;
    while idx < files.len() && !stopped
        invariant
            0 <= idx <= files@.len(),
            m == files_model(files@),
            report_wf(m),
            forall|k: int| 0 <= k < idx ==> lex_lt((#[trigger] m[k]).0, path@),
            stopped ==> idx < files@.len() && !lex_lt(m[idx as int].0, path@),
        decreases files@.len() - idx + (if stopped {
            0int
        } else {
            1int
        }),
    {
        let o = compare_bytes(files[idx].0.as_slice(), path.as_slice());
        proof {
            assert(m[idx as int].0 == files@[idx as int].0@);
        }
        if matches!(o, PathOrder::Before) {
            idx = idx + 1;
        } else {
            proof {
                lemma_lex_lt_irrefl(m[idx as int].0);
            }
            stopped = true;
        }
    }
    proof {
        lemma_add_branch_skip(m, path@, ln, blk, br, idx as int);
    }
    if idx < files.len() {
        let o = compare_bytes(files[idx].0.as_slice(), path.as_slice());
        let same = matches!(o, PathOrder::Same);
        proof {
            assert(m[idx as int] == (files@[idx as int].0@, files@[idx as int].1@));
            if !same {
                assert(lex_lt(path@, m[idx as int].0));
            }
        }
        if same {
            let mut e = files.remove(idx);
            add_branch_to_list(&mut e.1.branches, ln, blk, br);
            files.insert(idx, e);
            proof {
                lemma_lex_lt_irrefl(path@);
                let updated = (
                    m[idx as int].0,
                    RecordModel {
                        lines: m[idx as int].1.lines,
                        branches: add_branch_entry(m[idx as int].1.branches, ln, blk, br),
                    },
                );
                assert(add_branch(m.skip(idx as int), path@, ln, blk, br) =~= seq![updated]
                    + m.skip(idx as int).drop_first());
                assert(files_model(files@) =~= m.update(idx as int, updated));
                assert(files_model(files@) =~= m.take(idx as int) + (seq![updated] + m.skip(
                    idx as int,
                ).drop_first()));
                assert forall|i: int, j: int|
                    0 <= i < j < files_model(files@).len() implies lex_lt(
                    (#[trigger] files_model(files@)[i]).0,
                    (#[trigger] files_model(files@)[j]).0,
                ) by {
                    assert(files_model(files@)[i].0 == m[i].0);
                    assert(files_model(files@)[j].0 == m[j].0);
                }
            }
        } else {
            let mut v: Vec<(u32, u32, i32)> = Vec::new();
            v.push((blk, br, -1));
            let mut branches: Vec<(u32, Vec<(u32, u32, i32)>)> = Vec::new();
            branches.push((ln, v));
            let rec = CoverageRecord { lines: Vec::new(), branches };
            let pair = (clone_bytes(path), rec);
            proof {
                assert(pair.1@.lines =~= Seq::<u32>::empty());
                assert(pair.1@.branches =~= seq![(ln, seq![(blk, br, -1 as i32)])]);
                assert(add_branch_entry(Seq::empty(), ln, blk, br) == seq![
                    (ln, seq![(blk, br, -1 as i32)]),
                ]);
            }
            files.insert(idx, pair);
            proof {
                let fresh = (
                    path@,
                    RecordModel {
                        lines: Seq::empty(),
                        branches: add_branch_entry(Seq::empty(), ln, blk, br),
                    },
                );
                assert(lex_lt(path@, m[idx as int].0));
                assert(add_branch(m.skip(idx as int), path@, ln, blk, br) =~= seq![fresh] + m.skip(
                    idx as int,
                ));
                assert(files_model(files@) =~= m.insert(idx as int, fresh));
                assert(files_model(files@) =~= m.take(idx as int) + (seq![fresh] + m.skip(
                    idx as int,
                )));
                assert forall|i: int, j: int|
                    0 <= i < j < files_model(files@).len() implies lex_lt(
                    (#[trigger] files_model(files@)[i]).0,
                    (#[trigger] files_model(files@)[j]).0,
                ) by {
                    let fm = files_model(files@);
                    if i < idx && j == idx {
                    } else if i == idx && j > idx {
                        assert(fm[j] == m[j - 1]);
                        if j - 1 > idx {
                            lemma_lex_lt_trans(path@, m[idx as int].0, m[j - 1].0);
                        }
                    } else if i < idx && j > idx {
                        assert(fm[i] == m[i]);
                        assert(fm[j] == m[j - 1]);
                    } else if i > idx && j > idx {
                        assert(fm[i] == m[i - 1]);
                        assert(fm[j] == m[j - 1]);
                    }
                }
            }
        }
    } else {
        let mut v: Vec<(u32, u32, i32)> = Vec::new();
        v.push((blk, br, -1));
        let mut branches: Vec<(u32, Vec<(u32, u32, i32)>)> = Vec::new();
        branches.push((ln, v));
        let rec = CoverageRecord { lines: Vec::new(), branches };
        let pair = (clone_bytes(path), rec);
        proof {
            assert(pair.1@.lines =~= Seq::<u32>::empty());
            assert(pair.1@.branches =~= seq![(ln, seq![(blk, br, -1 as i32)])]);
            assert(add_branch_entry(Seq::empty(), ln, blk, br) == seq![
                (ln, seq![(blk, br, -1 as i32)]),
            ]);
        }
        files.push(pair);
        proof {
            let fresh = (
                path@,
                RecordModel {
                    lines: Seq::empty(),
                    branches: add_branch_entry(Seq::empty(), ln, blk, br),
                },
            );
            assert(m.skip(idx as int) =~= Seq::<(Seq<u8>, RecordModel)>::empty());
            assert(add_branch(m.skip(idx as int), path@, ln, blk, br) =~= seq![fresh]);
            assert(files_model(files@) =~= m.push(fresh));
            assert(files_model(files@) =~= m.take(idx as int) + seq![fresh]);
            assert forall|i: int, j: int|
                0 <= i < j < files_model(files@).len() implies lex_lt(
                (#[trigger] files_model(files@)[i]).0,
                (#[trigger] files_model(files@)[j]).0,
            ) by {
                if j < m.len() {
                    assert(files_model(files@)[i] == m[i]);
                    assert(files_model(files@)[j] == m[j]);
                } else {
                    assert(files_model(files@)[i] == m[i]);
                }
            }
        }
    }
}

} // verus!

verus! {

/// Parses the full text of an LCOV trace into a [`CoverageReport`].
///
/// Succeeds exactly when every `DA:`/`BRDA:` line has well-formed required
/// numeric fields; the report is then the parser fold over the input's
/// lines: its paths are unique and strictly ascending, every record is
/// well-formed and has at least one uncovered line or branch, and repeated
/// `SF:` blocks for one path accumulate into one record.
pub fn parse_lcov(data: &[u8]) -> (r: Result<CoverageReport, ParseError>)
    ensures
        r is Ok <==> all_ok(lines_of(data@)),
        r is Ok ==> r->Ok_0@ == fold_lines(lines_of(data@)).files,
        r is Ok ==> report_wf(r->Ok_0@),
{
    let mut files: Vec<(Vec<u8>, CoverageRecord)> = Vec::new();
    let mut current: Option<Vec<u8>> = None;
    let ghost mut done: Seq<Seq<u8>> = Seq::empty();
    let mut start: usize = 0;
    proof {
        assert(data@.skip(0) =~= data@);
        assert(done + lines_of(data@) =~= lines_of(data@));
        assert(files_model(files@) =~= Seq::<(Seq<u8>, RecordModel)>::empty());
    }
    while start < data.len()
        invariant
            0 <= start <= data@.len(),
            all_ok(done),
            lines_of(data@) == done + lines_of(data@.skip(start as int)),
            fold_lines(done) == (ParseState {
                current: cur_view(current),
                files: files_model(files@),
            }),
            report_wf(files_model(files@)),
        decreases data@.len() - start,
    {
        let ghost rest = data@.skip(start as int);
        let mut end: usize = start;
        while end < data.len() && data[end] != '\n' as u8
            invariant
                start <= end <= data@.len(),
                forall|k: int| start <= k < end ==> data@[k] != '\n' as u8,
            decreases data@.len() - end,
        {
            end = end + 1;
        }
        proof {
            assert forall|k: int| 0 <= k < end - start implies rest[k] != 10 by {
                assert(rest[k] == data@[start + k]);
            }
            if (end as int) < data@.len() {
                assert(rest[end - start] == data@[end as int]);
            }
            lemma_find_byte_is(rest, 10, end - start);
        }
        let seg: Vec<u8>;
        let next_start: usize;
        if end < data.len() {
            let mut stop: usize = end;
            if stop > start && data[stop - 1] == 13 {
                stop = stop - 1;
            }
            seg = vstd::slice::slice_to_vec(vstd::slice::slice_subrange(data, start, stop));
            next_start = end + 1;
            proof {
                assert(rest.take(end - start) =~= data@.subrange(start as int, end as int));
                if end > start && data@[end - 1] == 13 {
                    assert(rest.take(end - start).last() == 13);
                    assert(strip_one_cr(rest.take(end - start)) =~= data@.subrange(
                        start as int,
                        end - 1,
                    ));
                } else {
                    assert(strip_one_cr(rest.take(end - start)) =~= data@.subrange(
                        start as int,
                        end as int,
                    ));
                }
                assert(seg@ == strip_one_cr(rest.take(end - start)));
                assert(rest.skip(end - start + 1) =~= data@.skip(next_start as int));
                assert(lines_of(rest) == seq![seg@] + lines_of(data@.skip(next_start as int)));
            }
        } else {
            seg = vstd::slice::slice_to_vec(vstd::slice::slice_subrange(data, start, end));
            next_start = end;
            proof {
                assert(seg@ =~= rest);
                assert(lines_of(rest) == seq![rest]);
                assert(data@.skip(next_start as int) =~= Seq::<u8>::empty());
                assert(lines_of(rest) =~= seq![seg@] + lines_of(data@.skip(next_start as int)));
            }
        }
        let ghost l = seg@;
        let ghost st0 = ParseState { current: cur_view(current), files: files_model(files@) };
        let n = seg.len();
        let sl = seg.as_slice();
        let sf_line = n >= 3 && sl[0] == 'S' as u8 && sl[1] == 'F' as u8 && sl[2] == ':' as u8;
        let da_line = n >= 3 && sl[0] == 'D' as u8 && sl[1] == 'A' as u8 && sl[2] == ':' as u8;
        let brda_line = n >= 5 && sl[0] == 'B' as u8 && sl[1] == 'R' as u8 && sl[2] == 'D' as u8
            && sl[3] == 'A' as u8 && sl[4] == ':' as u8;
        if sf_line {
            let t = trim_bytes(vstd::slice::slice_subrange(sl, 3, n));
            proof {
                assert(sl@.subrange(3, n as int) =~= l.skip(3));
            }
            current = Some(t);
            proof {
                assert(cur_view(current) == Some(spec_trim(l.skip(3))));
            }
        } else if da_line {
            let rest2 = vstd::slice::slice_subrange(sl, 3, n);
            proof {
                assert(rest2@ =~= l.skip(3));
            }
            let parts = split_fields(rest2);
            let ghost spec_parts = split_commas(l.skip(3));
            if parts.len() < 2 {
                proof {
                    assert(!da_ok(l));
                    assert(lines_of(data@)[done.len() as int] == l);
                    assert(!line_ok(lines_of(data@)[done.len() as int]));
                }
                return Err(ParseError::MalformedField);
            }
            proof {
                assert(fields_view(parts@)[0] == parts@[0]@);
                assert(fields_view(parts@)[1] == parts@[1]@);
            }
            let lnum = parse_u32(parts[0].as_slice());
            let hits = parse_u32(parts[1].as_slice());
            if lnum.is_none() || hits.is_none() {
                proof {
                    assert(!da_ok(l));
                    assert(lines_of(data@)[done.len() as int] == l);
                    assert(!line_ok(lines_of(data@)[done.len() as int]));
                }
                return Err(ParseError::MalformedField);
            }
            let lv = lnum.unwrap();
            let hv = hits.unwrap();
            proof {
                assert(da_ok(l));
                assert(lv as int == u32_str_value(spec_parts[0]));
                assert(hv as int == u32_str_value(spec_parts[1]));
            }
            if hv == 0 {
                match &current {
                    Some(p) => {
                        add_uncovered_line(&mut files, p, lv);
                        proof {
                            assert(step(st0, l).files == add_line(
                                st0.files,
                                st0.current->Some_0,
                                lv,
                            ));
                        }
                    },
                    None => {
                        proof {
                            assert(step(st0, l) == st0);
                        }
                    },
                }
            } else {
                proof {
                    assert(u32_str_value(spec_parts[1]) != 0);
                    assert(step(st0, l) == st0);
                }
            }
        } else if brda_line {
            let rest2 = vstd::slice::slice_subrange(sl, 5, n);
            proof {
                assert(rest2@ =~= l.skip(5));
            }
            let parts = split_fields(rest2);
            let ghost spec_parts = split_commas(l.skip(5));
            if parts.len() < 4 {
                proof {
                    assert(!brda_ok(l));
                    assert(lines_of(data@)[done.len() as int] == l);
                    assert(!line_ok(lines_of(data@)[done.len() as int]));
                }
                return Err(ParseError::MalformedField);
            }
            proof {
                assert(fields_view(parts@)[0] == parts@[0]@);
                assert(fields_view(parts@)[1] == parts@[1]@);
                assert(fields_view(parts@)[2] == parts@[2]@);
                assert(fields_view(parts@)[3] == parts@[3]@);
            }
            let lnum = parse_u32(parts[0].as_slice());
            let blknum = parse_u32(parts[1].as_slice());
            let brnum = parse_u32(parts[2].as_slice());
            if lnum.is_none() || blknum.is_none() || brnum.is_none() {
                proof {
                    assert(!brda_ok(l));
                    assert(lines_of(data@)[done.len() as int] == l);
                    assert(!line_ok(lines_of(data@)[done.len() as int]));
                }
                return Err(ParseError::MalformedField);
            }
            let lv = lnum.unwrap();
            let blkv = blknum.unwrap();
            let brv = brnum.unwrap();
            proof {
                assert(brda_ok(l));
                assert(lv as int == u32_str_value(spec_parts[0]));
                assert(blkv as int == u32_str_value(spec_parts[1]));
                assert(brv as int == u32_str_value(spec_parts[2]));
            }
            if taken_uncovered_bytes(parts[3].as_slice()) {
                match &current {
                    Some(p) => {
                        add_uncovered_branch(&mut files, p, lv, blkv, brv);
                        proof {
                            assert(step(st0, l).files == add_branch(
                                st0.files,
                                st0.current->Some_0,
                                lv,
                                blkv,
                                brv,
                            ));
                        }
                    },
                    None => {
                        proof {
                            assert(step(st0, l) == st0);
                        }
                    },
                }
            } else {
                proof {
                    assert(!taken_uncovered(spec_parts[3]));
                    assert(step(st0, l) == st0);
                }
            }
        } else {
            proof {
                assert(!is_sf(l) && !is_da(l) && !is_brda(l));
                assert(step(st0, l) == st0);
            }
        }
        proof {
            let done2 = done.push(l);
            assert(done2.drop_last() =~= done);
            assert(done2.last() == l);
            assert(fold_lines(done2) == step(st0, l));
            assert(all_ok(done2)) by {
                assert forall|i: int| 0 <= i < done2.len() implies line_ok(
                    #[trigger] done2[i],
                ) by {
                    if i < done.len() {
                        assert(done2[i] == done[i]);
                    } else {
                        assert(done2[i] == l);
                    }
                }
            }
            assert(done + lines_of(rest) =~= done2 + lines_of(data@.skip(next_start as int)));
            done = done2;
        }
        start = next_start;
    }
    proof {
        assert(data@.skip(start as int) =~= Seq::<u8>::empty());
        assert(lines_of(data@) =~= done);
    }
    Ok(CoverageReport { files })
}

} // verus!
