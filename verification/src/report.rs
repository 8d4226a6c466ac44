//! The in-memory coverage report: one record per source file, ordered
//! lexicographically by file path.

use vstd::prelude::*;

verus! {

/// One source file's coverage gaps: line numbers with zero hits, in the
/// order first encountered, and per-line branch outcome tuples
/// `(block, branch, taken)` where `taken == -1` means "never executed".
/// The branch list is keyed by line number, in strictly ascending order.
#[derive(Debug)]
pub struct CoverageRecord {
    pub lines: Vec<u32>,
    pub branches: Vec<(u32, Vec<(u32, u32, i32)>)>,
}

/// Mathematical model of a [`CoverageRecord`].
pub ghost struct RecordModel {
    pub lines: Seq<u32>,
    pub branches: Seq<(u32, Seq<(u32, u32, i32)>)>,
}

/// The model of a branch list: each per-line vector replaced by its view.
pub open spec fn branches_model(v: Seq<(u32, Vec<(u32, u32, i32)>)>) -> Seq<
    (u32, Seq<(u32, u32, i32)>),
> {
    v.map_values(|p: (u32, Vec<(u32, u32, i32)>)| (p.0, p.1@))
}

impl View for CoverageRecord {
    type V = RecordModel;

    open spec fn view(&self) -> RecordModel {
        RecordModel { lines: self.lines@, branches: branches_model(self.branches@) }
    }
}

/// The full report: file path (as bytes) to record, with unique paths in
/// strictly ascending lexicographic order.
#[derive(Debug)]
pub struct CoverageReport {
    pub files: Vec<(Vec<u8>, CoverageRecord)>,
}

/// The model of a file list: each path and record replaced by its view.
pub open spec fn files_model(v: Seq<(Vec<u8>, CoverageRecord)>) -> Seq<(Seq<u8>, RecordModel)> {
    v.map_values(|p: (Vec<u8>, CoverageRecord)| (p.0@, p.1@))
}

impl View for CoverageReport {
    type V = Seq<(Seq<u8>, RecordModel)>;

    open spec fn view(&self) -> Seq<(Seq<u8>, RecordModel)> {
        files_model(self.files@)
    }
}

/// Strict lexicographic order on byte sequences: the order `BTreeMap<String, _>`
/// iterates its keys in.
pub open spec fn lex_lt(a: Seq<u8>, b: Seq<u8>) -> bool
    decreases a.len(),
{
    if b.len() == 0 {
        false
    } else if a.len() == 0 {
        true
    } else if a[0] < b[0] {
        true
    } else if b[0] < a[0] {
        false
    } else {
        lex_lt(a.drop_first(), b.drop_first())
    }
}

/// A branch list is keyed by strictly increasing line numbers.
pub open spec fn branch_keys_sorted(bs: Seq<(u32, Seq<(u32, u32, i32)>)>) -> bool {
    forall|i: int, j: int|
        0 <= i < j < bs.len() ==> (#[trigger] bs[i]).0 < (#[trigger] bs[j]).0
}

/// A record's branch lists are keyed by strictly increasing line numbers.
pub open spec fn record_wf(r: RecordModel) -> bool {
    branch_keys_sorted(r.branches)
}

/// A record that earns a place in the report: at least one uncovered line
/// or at least one line with an uncovered branch.
pub open spec fn record_nonempty(r: RecordModel) -> bool {
    r.lines.len() > 0 || r.branches.len() > 0
}

/// Paths strictly ascending (hence unique), every record well-formed and
/// non-empty.
pub open spec fn report_wf(files: Seq<(Seq<u8>, RecordModel)>) -> bool {
    &&& forall|i: int, j: int|
        0 <= i < j < files.len() ==> lex_lt((#[trigger] files[i]).0, (#[trigger] files[j]).0)
    &&& forall|i: int| 0 <= i < files.len() ==> record_wf((#[trigger] files[i]).1)
    &&& forall|i: int| 0 <= i < files.len() ==> record_nonempty((#[trigger] files[i]).1)
}

pub proof fn lemma_lex_lt_trans(a: Seq<u8>, b: Seq<u8>, c: Seq<u8>)
    requires
        lex_lt(a, b),
        lex_lt(b, c),
    ensures
        lex_lt(a, c),
    decreases a.len(),
{
    if b.len() == 0 {
    } else if a.len() == 0 {
    } else if c.len() == 0 {
    } else {
        if a[0] == b[0] && b[0] == c[0] {
            lemma_lex_lt_trans(a.drop_first(), b.drop_first(), c.drop_first());
        }
    }
}

pub proof fn lemma_lex_lt_irrefl(a: Seq<u8>)
    ensures
        !lex_lt(a, a),
    decreases a.len(),
{
    if a.len() > 0 {
        lemma_lex_lt_irrefl(a.drop_first());
    }
}

pub proof fn lemma_lex_lt_asym(a: Seq<u8>, b: Seq<u8>)
    requires
        lex_lt(a, b),
    ensures
        !lex_lt(b, a),
        a != b,
    decreases a.len(),
{
    if a.len() != 0 && b.len() != 0 && a[0] == b[0] {
        lemma_lex_lt_asym(a.drop_first(), b.drop_first());
        assert(a != b) by {
            if a =~= b {
                assert(a.drop_first() =~= b.drop_first());
            }
        }
    }
}

/// Result of comparing two byte strings.
pub enum PathOrder {
    Before,
    Same,
    After,
}

proof fn lemma_lex_lt_skip(a: Seq<u8>, b: Seq<u8>, i: int)
    requires
        0 <= i <= a.len(),
        i <= b.len(),
        forall|k: int| 0 <= k < i ==> a[k] == b[k],
    ensures
        lex_lt(a, b) == lex_lt(a.skip(i), b.skip(i)),
    decreases i,
{
    if i > 0 {
        if a.len() > 0 && b.len() > 0 {
            lemma_lex_lt_skip(a.drop_first(), b.drop_first(), i - 1);
            assert(a.drop_first().skip(i - 1) =~= a.skip(i));
            assert(b.drop_first().skip(i - 1) =~= b.skip(i));
        }
    } else {
        assert(a.skip(0) =~= a);
        assert(b.skip(0) =~= b);
    }
}

/// Three-way comparison of byte strings in lexicographic order.
pub fn compare_bytes(a: &[u8], b: &[u8]) -> (o: PathOrder)
    ensures
        o is Before <==> lex_lt(a@, b@),
        o is Same <==> a@ == b@,
        o is After <==> lex_lt(b@, a@),
{
    let alen: usize = a.len();
    let blen: usize = b.len();
    let n: usize = if alen < blen {
        alen
    } else {
        blen
    };
    let mut i: usize = 0;
    while i < n
        invariant
            0 <= i <= n,
            n <= alen == a@.len(),
            n <= blen == b@.len(),
            n == if alen < blen {
                alen
            } else {
                blen
            },
            forall|k: int| 0 <= k < i ==> a@[k] == b@[k],
        decreases n - i,
    {
        if a[i] < b[i] {
            proof {
                lemma_lex_lt_skip(a@, b@, i as int);
                lemma_lex_lt_skip(b@, a@, i as int);
                lemma_lex_lt_asym(a@.skip(i as int), b@.skip(i as int));
                assert(a@ != b@) by {
                    if a@ =~= b@ {
                        assert(a@[i as int] == b@[i as int]);
                    }
                }
            }
            return PathOrder::Before;
        }
        if b[i] < a[i] {
            proof {
                lemma_lex_lt_skip(a@, b@, i as int);
                lemma_lex_lt_skip(b@, a@, i as int);
                lemma_lex_lt_asym(b@.skip(i as int), a@.skip(i as int));
                assert(a@ != b@) by {
                    if a@ =~= b@ {
                        assert(a@[i as int] == b@[i as int]);
                    }
                }
            }
            return PathOrder::After;
        }
        i = i + 1;
    }
    proof {
        lemma_lex_lt_skip(a@, b@, n as int);
        lemma_lex_lt_skip(b@, a@, n as int);
    }
    if alen < blen {
        proof {
            assert(a@.skip(n as int).len() == 0);
            assert(b@.skip(n as int).len() > 0);
            assert(a@ != b@) by {
                if a@ =~= b@ {
                }
            }
        }
        PathOrder::Before
    } else if blen < alen {
        proof {
            assert(b@.skip(n as int).len() == 0);
            assert(a@.skip(n as int).len() > 0);
            assert(a@ != b@) by {
                if a@ =~= b@ {
                }
            }
        }
        PathOrder::After
    } else {
        proof {
            assert(a@ =~= b@);
            lemma_lex_lt_irrefl(a@);
        }
        PathOrder::Same
    }
}

} // verus!
