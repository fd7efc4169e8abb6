use vstd::prelude::*;

use crate::ace_data::{JxsArray, NxsArray};
use crate::errors::ExecutionError;
use crate::executor::{count_pending, lemma_count_pending_nonneg, lemma_progress, Scheduler, TaskRunner};
use crate::graph::{Task, TaskGraph, TaskKey};
use crate::store::{kv_keys, lemma_kv_map_props, DepView};

verus! {

/// The views of a list of byte lines.
pub open spec fn lines_view(s: Seq<Vec<u8>>) -> Seq<Seq<u8>> {
    Seq::new(s.len(), |i: int| s[i]@)
}

/// ASCII whitespace, as trimmed from the front of a 20-column field.
pub open spec fn is_xxs_space(b: u8) -> bool {
    b == 32 || b == 9 || b == 10 || b == 12 || b == 13
}

/// A field with its leading whitespace removed.
pub open spec fn trim_front(s: Seq<u8>) -> Seq<u8>
    decreases s.len(),
{
    if s.len() > 0 && is_xxs_space(s[0]) {
        trim_front(s.drop_first())
    } else {
        s
    }
}

proof fn lemma_trim_front_at(s: Seq<u8>, k: int)
    requires
        0 <= k <= s.len(),
        forall|t: int| 0 <= t < k ==> is_xxs_space(#[trigger] s[t]),
        k < s.len() ==> !is_xxs_space(s[k]),
    ensures
        trim_front(s) == s.subrange(k, s.len() as int),
    decreases k,
{
    if k == 0 {
        assert(s.subrange(0, s.len() as int) =~= s);
    } else {
        assert(is_xxs_space(s[0]));
        let rest = s.drop_first();
        assert forall|t: int| 0 <= t < k - 1 implies is_xxs_space(#[trigger] rest[t]) by {
            assert(rest[t] == s[t + 1]);
        }
        lemma_trim_front_at(rest, k - 1);
        assert(rest.subrange(k - 1, rest.len() as int) =~= s.subrange(k, s.len() as int));
    }
}

/// The 20-column fields of one line, from column `20 * i` on, each trimmed
/// at the front; at most four per line.
pub open spec fn chunks_from(line: Seq<u8>, i: int) -> Seq<Seq<u8>>
    decreases 4 - i,
{
    if i >= 4 || i * 20 >= line.len() {
        Seq::empty()
    } else {
        seq![
            trim_front(
                line.subrange(
                    i * 20,
                    if i * 20 + 20 <= line.len() {
                        i * 20 + 20
                    } else {
                        line.len() as int
                    },
                ),
            ),
        ] + chunks_from(line, i + 1)
    }
}

/// The XXS entries a sequence of lines contributes, in order.
pub open spec fn xxs_entries_spec(lines: Seq<Seq<u8>>) -> Seq<Seq<u8>>
    decreases lines.len(),
{
    if lines.len() == 0 {
        Seq::empty()
    } else {
        xxs_entries_spec(lines.drop_last()) + chunks_from(lines.last(), 0)
    }
}

fn is_space_byte(b: u8) -> (r: bool)
    ensures
        r == is_xxs_space(b),
{
    b == 32 || b == 9 || b == 10 || b == 12 || b == 13
}

/// Splits each line of the XXS region into its 20-column fields, trimmed at
/// the front, preceded by one empty placeholder entry so that the result is
/// indexed from 1 as the format's tables are.
#[verifier::loop_isolation(false)]
pub fn xxs_entries_from_lines(lines: &Vec<Vec<u8>>) -> (r: Vec<Vec<u8>>)
    ensures
        lines_view(r@) == seq![Seq::<u8>::empty()] + xxs_entries_spec(lines_view(lines@)),
{
    let mut out: Vec<Vec<u8>> = Vec::new();
    out.push(Vec::new());
    proof {
        assert(lines_view(out@) =~= seq![Seq::<u8>::empty()] + xxs_entries_spec(
            lines_view(lines@).subrange(0, 0),
        ));
    }
    let n = lines.len();
    for li in 0..n
        invariant
            n == lines@.len(),
            lines_view(out@) == seq![Seq::<u8>::empty()] + xxs_entries_spec(
                lines_view(lines@).subrange(0, li as int),
            ),
    {
        let line = &lines[li];
        let len = line.len();
        let ghost lv = line@;
        let ghost entry_pre = lines_view(out@);
        for ci in 0..4usize
            invariant
                len == lv.len(),
                lv == lines@[li as int]@,
                li < n,
                n == lines@.len(),
                lines_view(out@) == entry_pre + chunks_from(lv, 0).take(
                    chunks_from(lv, 0).len() - chunks_from(lv, ci as int).len(),
                ),
                chunks_from(lv, 0).len() >= chunks_from(lv, ci as int).len(),
                chunks_from(lv, 0) == chunks_from(lv, 0).take(
                    chunks_from(lv, 0).len() - chunks_from(lv, ci as int).len(),
                ) + chunks_from(lv, ci as int),
        {
            let start = ci * 20;
            if start < len {
                let end = if start + 20 <= len {
                    start + 20
                } else {
                    len
                };
                let mut k = start;
                while k < end && is_space_byte(line[k])
                    invariant
                        start <= k <= end <= len,
                        len == lv.len(),
                        forall|t: int| start <= t < k ==> is_xxs_space(#[trigger] lv[t]),
                    decreases end - k,
                {
                    k += 1;
                }
                let mut entry: Vec<u8> = Vec::new();
                for t in k..end
                    invariant
                        k <= end <= len,
                        len == lv.len(),
                        entry@ == lv.subrange(k as int, t as int),
                {
                    entry.push(line[t]);
                    proof {
                        assert(entry@ =~= lv.subrange(k as int, t as int + 1));
                    }
                }
                proof {
                    let field = lv.subrange(start as int, end as int);
                    assert forall|t: int| 0 <= t < k - start implies is_xxs_space(
                        #[trigger] field[t],
                    ) by {
                        assert(field[t] == lv[start + t]);
                    }
                    if (k as int) - (start as int) < field.len() {
                        assert(field[k - start] == lv[k as int]);
                    }
                    lemma_trim_front_at(field, k as int - start as int);
                    assert(field.subrange(k as int - start, field.len() as int) =~= lv.subrange(
                        k as int,
                        end as int,
                    ));
                    assert(entry@ == trim_front(field));
                }
                let ghost before = lines_view(out@);
                out.push(entry);
                proof {
                    assert(lines_view(out@) =~= before.push(trim_front(
                        lv.subrange(
                            ci as int * 20,
                            if ci as int * 20 + 20 <= lv.len() {
                                ci as int * 20 + 20
                            } else {
                                lv.len() as int
                            },
                        ),
                    )));
                    let tail = chunks_from(lv, ci as int);
                    assert(tail == seq![tail[0]] + chunks_from(lv, ci as int + 1));
                    assert(lines_view(out@) =~= entry_pre + chunks_from(lv, 0).take(
                        chunks_from(lv, 0).len() - chunks_from(lv, ci as int + 1).len(),
                    ));
                    assert(chunks_from(lv, 0) =~= chunks_from(lv, 0).take(
                        chunks_from(lv, 0).len() - chunks_from(lv, ci as int + 1).len(),
                    ) + chunks_from(lv, ci as int + 1));
                }
            } else {
                proof {
                    assert(chunks_from(lv, ci as int) =~= Seq::<Seq<u8>>::empty());
                    assert(chunks_from(lv, ci as int + 1) =~= Seq::<Seq<u8>>::empty());
                }
            }
        }
        proof {
            assert(chunks_from(lv, 4) =~= Seq::<Seq<u8>>::empty());
            assert(lines_view(out@) =~= entry_pre + chunks_from(lv, 0));
            assert(lines_view(lines@).subrange(0, li as int + 1).drop_last() =~= lines_view(
                lines@,
            ).subrange(0, li as int));
            assert(lines_view(lines@).subrange(0, li as int + 1).last() == lv);
            assert(lines_view(out@) =~= seq![Seq::<u8>::empty()] + xxs_entries_spec(
                lines_view(lines@).subrange(0, li as int + 1),
            ));
        }
    }
    proof {
        assert(lines_view(lines@).subrange(0, lines@.len() as int) =~= lines_view(lines@));
    }
    out
}

#[verifier::loop_isolation(false)]
fn copy_line(v: &Vec<u8>) -> (r: Vec<u8>)
    ensures
        r@ == v@,
{
    let n = v.len();
    let mut out: Vec<u8> = Vec::new();
    for i in 0..n
        invariant
            n == v@.len(),
            out@ == v@.subrange(0, i as int),
    {
        out.push(v[i]);
        proof {
            assert(out@ =~= v@.subrange(0, i as int + 1));
        }
    }
    proof {
        assert(out@ =~= v@);
    }
    out
}

/// A copy of the entries `[s, e)` of a list of lines.
#[verifier::loop_isolation(false)]
fn copy_lines(xxs: &Vec<Vec<u8>>, s: usize, e: usize) -> (r: Vec<Vec<u8>>)
    requires
        s <= e <= xxs@.len(),
    ensures
        lines_view(r@) == lines_view(xxs@).subrange(s as int, e as int),
{
    let mut out: Vec<Vec<u8>> = Vec::new();
    for i in s..e
        invariant
            s <= i <= e <= xxs@.len(),
            lines_view(out@) == lines_view(xxs@).subrange(s as int, i as int),
    {
        out.push(copy_line(&xxs[i]));
        proof {
            assert(lines_view(out@) =~= lines_view(xxs@).subrange(s as int, i as int + 1));
        }
    }
    out
}

#[verifier::loop_isolation(false)]
fn copy_usizes(v: &Vec<usize>) -> (r: Vec<usize>)
    ensures
        r@ == v@,
{
    let n = v.len();
    let mut out: Vec<usize> = Vec::new();
    for i in 0..n
        invariant
            n == v@.len(),
            out@ == v@.subrange(0, i as int),
    {
        out.push(v[i]);
        proof {
            assert(out@ =~= v@.subrange(0, i as int + 1));
        }
    }
    proof {
        assert(out@ =~= v@);
    }
    out
}

/// The data blocks of a continuous-energy table, in JXS slot order.
#[derive(Clone, Copy, Debug, PartialEq, Eq, Structural)]
pub enum DataBlockType {
    ESZ,
    NU,
    MTR,
    LQR,
    TYR,
    LSIG,
    SIG,
    LAND,
    AND,
    LDLW,
    DLW,
}

impl DataBlockType {
    /// The 1-based JXS slot that holds this block's start index.
    pub open spec fn jxs_slot_spec(self) -> int {
        match self {
            DataBlockType::ESZ => 1,
            DataBlockType::NU => 2,
            DataBlockType::MTR => 3,
            DataBlockType::LQR => 4,
            DataBlockType::TYR => 5,
            DataBlockType::LSIG => 6,
            DataBlockType::SIG => 7,
            DataBlockType::LAND => 8,
            DataBlockType::AND => 9,
            DataBlockType::LDLW => 10,
            DataBlockType::DLW => 11,
        }
    }

    pub fn jxs_slot(self) -> (r: usize)
        ensures
            r == self.jxs_slot_spec(),
    {
        match self {
            DataBlockType::ESZ => 1,
            DataBlockType::NU => 2,
            DataBlockType::MTR => 3,
            DataBlockType::LQR => 4,
            DataBlockType::TYR => 5,
            DataBlockType::LSIG => 6,
            DataBlockType::SIG => 7,
            DataBlockType::LAND => 8,
            DataBlockType::AND => 9,
            DataBlockType::LDLW => 10,
            DataBlockType::DLW => 11,
        }
    }

    /// The task key a block decodes under: its JXS slot number.
    pub open spec fn task_key_spec(self) -> TaskKey {
        self.jxs_slot_spec() as TaskKey
    }

    pub fn task_key(self) -> (r: TaskKey)
        ensures
            r == self.task_key_spec(),
    {
        self.jxs_slot() as u64
    }

    /// Every block type, in JXS slot order.
    pub open spec fn all_spec() -> Seq<DataBlockType> {
        seq![
            DataBlockType::ESZ,
            DataBlockType::NU,
            DataBlockType::MTR,
            DataBlockType::LQR,
            DataBlockType::TYR,
            DataBlockType::LSIG,
            DataBlockType::SIG,
            DataBlockType::LAND,
            DataBlockType::AND,
            DataBlockType::LDLW,
            DataBlockType::DLW,
        ]
    }

    pub fn all() -> (r: Vec<DataBlockType>)
        ensures
            r@ == DataBlockType::all_spec(),
    {
        let mut v: Vec<DataBlockType> = Vec::new();
        v.push(DataBlockType::ESZ);
        v.push(DataBlockType::NU);
        v.push(DataBlockType::MTR);
        v.push(DataBlockType::LQR);
        v.push(DataBlockType::TYR);
        v.push(DataBlockType::LSIG);
        v.push(DataBlockType::SIG);
        v.push(DataBlockType::LAND);
        v.push(DataBlockType::AND);
        v.push(DataBlockType::LDLW);
        v.push(DataBlockType::DLW);
        proof {
            assert(v@ =~= DataBlockType::all_spec());
        }
        v
    }
}

pub open spec fn is_digit_byte(b: u8) -> bool {
    48 <= b <= 57
}

pub open spec fn all_digits(s: Seq<u8>) -> bool {
    forall|i: int| 0 <= i < s.len() ==> is_digit_byte(#[trigger] s[i])
}

/// The number a string of decimal digits denotes.
pub open spec fn digits_val(s: Seq<u8>) -> int
    decreases s.len(),
{
    if s.len() == 0 {
        0
    } else {
        digits_val(s.drop_last()) * 10 + (s.last() - 48)
    }
}

/// The field holds a number this machine can index with.
pub open spec fn parses_as_usize(s: Seq<u8>) -> bool {
    s.len() >= 1 && all_digits(s) && digits_val(s) <= usize::MAX
}

proof fn lemma_digits_nonneg(s: Seq<u8>)
    requires
        all_digits(s),
    ensures
        digits_val(s) >= 0,
    decreases s.len(),
{
    if s.len() > 0 {
        assert forall|i: int| 0 <= i < s.drop_last().len() implies is_digit_byte(
            #[trigger] s.drop_last()[i],
        ) by {
            assert(s.drop_last()[i] == s[i]);
        }
        lemma_digits_nonneg(s.drop_last());
    }
}

proof fn lemma_digits_prefix(s: Seq<u8>, i: int)
    requires
        all_digits(s),
        0 <= i <= s.len(),
    ensures
        digits_val(s.take(i)) <= digits_val(s),
    decreases s.len() - i,
{
    if i == s.len() {
        assert(s.take(i) =~= s);
    } else {
        let p = s.take(i);
        let q = s.take(i + 1);
        assert(q.drop_last() =~= p);
        assert(q.last() == s[i]);
        assert forall|t: int| 0 <= t < p.len() implies is_digit_byte(#[trigger] p[t]) by {
            assert(p[t] == s[t]);
        }
        lemma_digits_nonneg(p);
        assert(digits_val(q) == digits_val(p) * 10 + (s[i] - 48));
        assert(digits_val(p) * 10 >= digits_val(p));
        lemma_digits_prefix(s, i + 1);
    }
}

/// Reads a left-trimmed decimal field as a usize; refused when empty, when a
/// byte is not a digit, or when the value does not fit.
#[verifier::loop_isolation(false)]
pub fn parse_usize_digits(s: &Vec<u8>) -> (r: Option<usize>)
    ensures
        match r {
            Some(v) => parses_as_usize(s@) && v == digits_val(s@),
            None => !parses_as_usize(s@),
        },
{
    let n = s.len();
    if n == 0 {
        return None;
    }
    let mut acc: usize = 0;
    for i in 0..n
        invariant
            n == s@.len(),
            all_digits(s@.take(i as int)),
            acc == digits_val(s@.take(i as int)),
    {
        let b = s[i];
        if b < 48 || b > 57 {
            return None;
        }
        let d = (b - 48) as usize;
        let trial: u128 = (acc as u128) * 10 + (d as u128);
        proof {
            assert(s@.take(i as int + 1).drop_last() =~= s@.take(i as int));
            assert(s@.take(i as int + 1).last() == s@[i as int]);
            assert(digits_val(s@.take(i as int + 1)) == acc * 10 + d);
        }
        if trial > usize::MAX as u128 {
            proof {
                if all_digits(s@) {
                    lemma_digits_prefix(s@, i as int + 1);
                }
            }
            return None;
        }
        acc = trial as usize;
        proof {
            assert forall|t: int| 0 <= t < i as int + 1 implies is_digit_byte(
                #[trigger] s@.take(i as int + 1)[t],
            ) by {
                assert(s@.take(i as int + 1)[t] == s@[t]);
            }
        }
    }
    proof {
        assert(s@.take(n as int) =~= s@);
    }
    Some(acc)
}

/// Whether every field of a block parses, and the numbers they denote.
pub open spec fn parse_lines_spec(lines: Seq<Seq<u8>>) -> Option<Seq<usize>>
    decreases lines.len(),
{
    if lines.len() == 0 {
        Some(Seq::empty())
    } else {
        match parse_lines_spec(lines.drop_last()) {
            None => None,
            Some(v) => if parses_as_usize(lines.last()) {
                Some(v.push(digits_val(lines.last()) as usize))
            } else {
                None
            },
        }
    }
}

proof fn lemma_parse_lines_none_extends(s: Seq<Seq<u8>>, i: int)
    requires
        0 <= i <= s.len(),
        parse_lines_spec(s.take(i)) is None,
    ensures
        parse_lines_spec(s) is None,
    decreases s.len() - i,
{
    if i == s.len() {
        assert(s.take(i) =~= s);
    } else {
        assert(s.take(i + 1).drop_last() =~= s.take(i));
        lemma_parse_lines_none_extends(s, i + 1);
    }
}

/// The ESZ block: the energy grid, kept as its raw column fields. The
/// numeric grid itself is floating point and is decoded by the host layer.
#[derive(Debug)]
pub struct ESZ {
    pub energy: Vec<Vec<u8>>,
}

impl ESZ {
    /// Keeps the energy rows: the first `nes` entries of the block's text.
    #[verifier::loop_isolation(false)]
    pub fn process(lines: &Vec<Vec<u8>>, nxs: &NxsArray) -> (r: ESZ)
        ensures
            lines_view(r.energy@) == lines_view(lines@).take(
                if nxs.nes <= lines@.len() {
                    nxs.nes as int
                } else {
                    lines@.len() as int
                },
            ),
    {
        let n = if nxs.nes <= lines.len() {
            nxs.nes
        } else {
            lines.len()
        };
        let r = ESZ { energy: copy_lines(lines, 0, n) };
        proof {
            assert(lines_view(lines@).subrange(0, n as int) =~= lines_view(lines@).take(n as int));
        }
        r
    }
}

/// The MTR block: the reaction MT numbers, kept as raw column fields.
#[derive(Debug)]
pub struct MTR {
    pub lines: Vec<Vec<u8>>,
}

impl MTR {
    pub fn process(lines: Vec<Vec<u8>>) -> (r: MTR)
        ensures
            r.lines == lines,
    {
        MTR { lines }
    }
}

/// The LSIG block: the locators of the incident-neutron cross-section
/// values, one per reaction.
#[derive(Debug, PartialEq)]
pub struct LSIG {
    pub xs_locs: Vec<usize>,
}

impl LSIG {
    /// Takes the locator values of a block as 64-bit numbers, narrowing
    /// each to an index.
    #[verifier::loop_isolation(false)]
    pub fn process(data: &Vec<u64>) -> (r: LSIG)
        ensures
            r.xs_locs@.len() == data@.len(),
            forall|i: int| 0 <= i < data@.len() ==> r.xs_locs@[i] == (#[trigger] data@[i]) as usize,
    {
        let n = data.len();
        let mut xs_locs: Vec<usize> = Vec::new();
        for i in 0..n
            invariant
                n == data@.len(),
                xs_locs@.len() == i,
                forall|t: int| 0 <= t < i ==> xs_locs@[t] == (#[trigger] data@[t]) as usize,
        {
            xs_locs.push(data[i] as usize);
        }
        LSIG { xs_locs }
    }

    /// Reads the locators from the block's column fields.
    #[verifier::loop_isolation(false)]
    pub fn from_ascii_entries(lines: &Vec<Vec<u8>>) -> (r: Option<LSIG>)
        ensures
            match r {
                Some(l) => parse_lines_spec(lines_view(lines@)) == Some(l.xs_locs@),
                None => parse_lines_spec(lines_view(lines@)) is None,
            },
    {
        let n = lines.len();
        let mut xs_locs: Vec<usize> = Vec::new();
        for i in 0..n
            invariant
                n == lines@.len(),
                parse_lines_spec(lines_view(lines@).take(i as int)) == Some(xs_locs@),
        {
            proof {
                assert(lines_view(lines@).take(i as int + 1).drop_last() =~= lines_view(
                    lines@,
                ).take(i as int));
                assert(lines_view(lines@).take(i as int + 1).last() == lines@[i as int]@);
            }
            match parse_usize_digits(&lines[i]) {
                Some(v) => {
                    xs_locs.push(v);
                },
                None => {
                    proof {
                        assert(parse_lines_spec(lines_view(lines@).take(i as int + 1)) is None);
                        lemma_parse_lines_none_extends(lines_view(lines@), i as int + 1);
                    }
                    return None;
                },
            }
        }
        proof {
            assert(lines_view(lines@).take(n as int) =~= lines_view(lines@));
        }
        Some(LSIG { xs_locs })
    }

    /// The locator words of the binary layout: `ntr` entries from the
    /// zero-based start the JXS slot gives, with the end pulled back by one
    /// when this is the last block of the array.
    #[verifier::loop_isolation(false)]
    pub fn pull_from_xxs_array(nxs: &NxsArray, jxs: &JxsArray, xxs: &Vec<u64>) -> (r: Option<
        Vec<u64>,
    >)
        requires
            jxs.wf(),
        ensures
            ({
                let start0 = jxs.slots@[5] as int;
                let s = start0 - 1;
                let e0 = s + nxs.ntr;
                let e = if e0 == xxs@.len() + 1 {
                    xxs@.len() as int
                } else {
                    e0
                };
                match r {
                    Some(v) => start0 >= 1 && s <= xxs@.len() && e <= xxs@.len() && s <= e && v@
                        == xxs@.subrange(s, e),
                    None => !(start0 >= 1 && s <= xxs@.len() && e <= xxs@.len() && s <= e),
                }
            }),
    {
        let start0 = jxs.get(&DataBlockType::LSIG);
        let len = xxs.len();
        if start0 == 0 {
            return None;
        }
        let s = start0 - 1;
        if s > len {
            return None;
        }
        let e128: u128 = (s as u128) + (nxs.ntr as u128);
        let e128 = if e128 == (len as u128) + 1 {
            (len as u128)
        } else {
            e128
        };
        if e128 > len as u128 {
            return None;
        }
        let e = e128 as usize;
        let mut out: Vec<u64> = Vec::new();
        for i in s..e
            invariant
                s <= i <= e <= xxs@.len(),
                out@ == xxs@.subrange(s as int, i as int),
        {
            out.push(xxs[i]);
            proof {
                assert(out@ =~= xxs@.subrange(s as int, i as int + 1));
            }
        }
        Some(out)
    }
}

/// The SIG block: the cross-section values, kept as raw column fields along
/// with what its producers decoded: the locators, the reaction count and the
/// energy count.
#[derive(Debug)]
pub struct SIG {
    pub lines: Vec<Vec<u8>>,
    pub xs_locs: Vec<usize>,
    pub num_reactions: usize,
    pub num_energies: usize,
}

impl SIG {
    pub fn process(lines: Vec<Vec<u8>>, mtr: &MTR, lsig: &LSIG, esz: &ESZ) -> (r: SIG)
        ensures
            r.lines == lines,
            r.xs_locs@ == lsig.xs_locs@,
            r.num_reactions == mtr.lines@.len(),
            r.num_energies == esz.energy@.len(),
    {
        SIG {
            lines,
            xs_locs: copy_usizes(&lsig.xs_locs),
            num_reactions: mtr.lines.len(),
            num_energies: esz.energy.len(),
        }
    }
}

/// One decoded block, tagged by its type.
#[derive(Debug)]
pub enum DataBlock {
    ESZ(ESZ),
    MTR(MTR),
    LSIG(LSIG),
    SIG(SIG),
}

/// The entry range `[start, end)` of a block inside the 1-indexed ASCII XXS
/// entry array, or nothing when the block is absent, not decoded here, or
/// its recorded extent leaves the array.
pub open spec fn ascii_range(
    bt: DataBlockType,
    nes: int,
    ntr: int,
    start0: int,
    len: int,
) -> Option<(int, int)> {
    let count = match bt {
        DataBlockType::ESZ => 5 * nes,
        DataBlockType::MTR => ntr,
        DataBlockType::LSIG => ntr,
        DataBlockType::SIG => len - start0,
        _ => -1,
    };
    if count >= 0 && start0 >= 1 && start0 + count <= len {
        Some((start0, start0 + count))
    } else {
        None
    }
}

/// The `[start, end)` entry range of one block of the ASCII XXS array.
pub fn pull_block_from_ascii_xxs_array(
    block_type: &DataBlockType,
    nxs: &NxsArray,
    jxs: &JxsArray,
    xxs: &Vec<Vec<u8>>,
) -> (r: Option<(usize, usize)>)
    requires
        jxs.wf(),
    ensures
        ({
            let spec_r = ascii_range(
                *block_type,
                nxs.nes as int,
                nxs.ntr as int,
                jxs.slots@[block_type.jxs_slot_spec() - 1] as int,
                xxs@.len() as int,
            );
            match r {
                Some((s, e)) => spec_r == Some((s as int, e as int)) && s <= e <= xxs@.len(),
                None => spec_r is None,
            }
        }),
{
    let start0 = jxs.get(block_type);
    let len = xxs.len();
    if start0 == 0 || start0 > len {
        return None;
    }
    let count128: u128 = match block_type {
        DataBlockType::ESZ => 5u128 * (nxs.nes as u128),
        DataBlockType::MTR => nxs.ntr as u128,
        DataBlockType::LSIG => nxs.ntr as u128,
        DataBlockType::SIG => (len - start0) as u128,
        _ => {
            return None;
        },
    };
    if (start0 as u128) + count128 > len as u128 {
        return None;
    }
    let e = start0 + (count128 as usize);
    Some((start0, e))
}

/// The ranges of the blocks present in the ASCII XXS array, walking the
/// block types in JXS slot order; a block appears when its range is sound.
pub open spec fn split_spec(nes: int, ntr: int, slots: Seq<usize>, len: int, k: int) -> Seq<
    (DataBlockType, (usize, usize)),
>
    decreases k,
{
    if k <= 0 {
        Seq::empty()
    } else {
        let bt = DataBlockType::all_spec()[k - 1];
        split_spec(nes, ntr, slots, len, k - 1) + match ascii_range(
            bt,
            nes,
            ntr,
            slots[bt.jxs_slot_spec() - 1] as int,
            len,
        ) {
            Some(p) => seq![(bt, (p.0 as usize, p.1 as usize))],
            None => Seq::empty(),
        }
    }
}

/// The decoded data blocks of a table.
#[derive(Debug)]
#[allow(non_snake_case)]
pub struct DataBlocks {
    pub ESZ: Option<ESZ>,
    pub MTR: Option<MTR>,
    pub LSIG: Option<LSIG>,
    pub SIG: Option<SIG>,
}

impl DataBlocks {
    /// Splits the ASCII XXS entry array into the ranges of the blocks that
    /// are present and decoded here.
    #[verifier::loop_isolation(false)]
    pub fn split_ascii_xxs_into_blocks(nxs: &NxsArray, jxs: &JxsArray, xxs: &Vec<Vec<u8>>) -> (r:
        Vec<(DataBlockType, (usize, usize))>)
        requires
            jxs.wf(),
        ensures
            r@ == split_spec(
                nxs.nes as int,
                nxs.ntr as int,
                jxs.slots@,
                xxs@.len() as int,
                DataBlockType::all_spec().len() as int,
            ),
            forall|t: int|
                0 <= t < r@.len() ==> (#[trigger] r@[t]).1.0 <= r@[t].1.1 <= xxs@.len(),
    {
        let types = DataBlockType::all();
        let n = types.len();
        let mut out: Vec<(DataBlockType, (usize, usize))> = Vec::new();
        for k in 0..n
            invariant
                n == DataBlockType::all_spec().len(),
                types@ == DataBlockType::all_spec(),
                jxs.wf(),
                out@ == split_spec(
                    nxs.nes as int,
                    nxs.ntr as int,
                    jxs.slots@,
                    xxs@.len() as int,
                    k as int,
                ),
                forall|t: int|
                    0 <= t < out@.len() ==> (#[trigger] out@[t]).1.0 <= out@[t].1.1 <= xxs@.len(),
        {
            let bt = types[k];
            match pull_block_from_ascii_xxs_array(&bt, nxs, jxs, xxs) {
                Some((s, e)) => {
                    out.push((bt, (s, e)));
                },
                None => {},
            }
            proof {
                assert(out@ =~= split_spec(
                    nxs.nes as int,
                    nxs.ntr as int,
                    jxs.slots@,
                    xxs@.len() as int,
                    k as int + 1,
                ));
            }
        }
        out
    }
}

/// The first range recorded for a block type.
pub open spec fn find_range_spec(
    map: Seq<(DataBlockType, (usize, usize))>,
    bt: DataBlockType,
) -> Option<(usize, usize)>
    decreases map.len(),
{
    if map.len() == 0 {
        None
    } else if map.first().0 == bt {
        Some(map.first().1)
    } else {
        find_range_spec(map.drop_first(), bt)
    }
}

#[verifier::loop_isolation(false)]
fn find_range(map: &Vec<(DataBlockType, (usize, usize))>, bt: DataBlockType) -> (r: Option<
    (usize, usize),
>)
    ensures
        r == find_range_spec(map@, bt),
{
    let n = map.len();
    proof {
        assert(map@.skip(0) =~= map@);
    }
    for i in 0..n
        invariant
            n == map@.len(),
            find_range_spec(map@, bt) == find_range_spec(map@.skip(i as int), bt),
    {
        proof {
            assert(map@.skip(i as int).first() == map@[i as int]);
            assert(map@.skip(i as int).drop_first() =~= map@.skip(i as int + 1));
        }
        if map[i].0 == bt {
            return Some(map[i].1);
        }
    }
    proof {
        assert(map@.skip(n as int) =~= Seq::<(DataBlockType, (usize, usize))>::empty());
    }
    None
}

pub open spec fn range_listed(o: Option<(usize, usize)>, len: int) -> bool {
    match o {
        Some(p) => p.0 <= p.1 <= len,
        None => false,
    }
}

/// The four decoded block types all have a sound range in the map.
pub open spec fn dag_inputs_ok(map: Seq<(DataBlockType, (usize, usize))>, len: int) -> bool {
    &&& range_listed(find_range_spec(map, DataBlockType::ESZ), len)
    &&& range_listed(find_range_spec(map, DataBlockType::MTR), len)
    &&& range_listed(find_range_spec(map, DataBlockType::LSIG), len)
    &&& range_listed(find_range_spec(map, DataBlockType::SIG), len)
}

/// The entries a listed range selects.
pub open spec fn text_of(entries: Seq<Seq<u8>>, o: Option<(usize, usize)>) -> Seq<Seq<u8>> {
    entries.subrange(o.unwrap().0 as int, o.unwrap().1 as int)
}

/// The energy-grid payload: the first `nes` rows of the block's text.
pub open spec fn is_esz_payload(b: DataBlock, text: Seq<Seq<u8>>, nes: int) -> bool {
    b matches DataBlock::ESZ(e) && lines_view(e.energy@) == text.take(
        if nes <= text.len() {
            nes
        } else {
            text.len() as int
        },
    )
}

/// The reaction-number payload: the block's text, unchanged.
pub open spec fn is_mtr_payload(b: DataBlock, text: Seq<Seq<u8>>) -> bool {
    b matches DataBlock::MTR(m) && lines_view(m.lines@) == text
}

/// The locator payload: exactly the parse of the block's fields.
pub open spec fn is_lsig_payload(b: DataBlock, text: Seq<Seq<u8>>) -> bool {
    b matches DataBlock::LSIG(l) && parse_lines_spec(text) == Some(l.xs_locs@)
}

/// The cross-section payload: the block's text together with what its three
/// producers published — the locators, the reaction count and the energy
/// count.
pub open spec fn is_sig_payload(
    b: DataBlock,
    text: Seq<Seq<u8>>,
    store: Map<TaskKey, DataBlock>,
) -> bool {
    &&& b matches DataBlock::SIG(s)
    &&& lines_view(s.lines@) == text
    &&& store.contains_key(1)
    &&& store[1] matches DataBlock::ESZ(e) && s.num_energies == e.energy@.len()
    &&& store.contains_key(3)
    &&& store[3] matches DataBlock::MTR(m) && s.num_reactions == m.lines@.len()
    &&& store.contains_key(6)
    &&& store[6] matches DataBlock::LSIG(l) && s.xs_locs@ == l.xs_locs@
}

/// Every published block value is the decode of its runner's text: the
/// payload the task's key demands.
pub open spec fn store_payloads_ok(store: Map<TaskKey, DataBlock>, r: BlockRunner) -> bool {
    &&& store.contains_key(1) ==> is_esz_payload(
        store[1],
        lines_view(r.esz_text@),
        r.nxs.nes as int,
    )
    &&& store.contains_key(3) ==> is_mtr_payload(store[3], lines_view(r.mtr_text@))
    &&& store.contains_key(6) ==> is_lsig_payload(store[6], lines_view(r.lsig_text@))
    &&& store.contains_key(7) ==> is_sig_payload(store[7], lines_view(r.sig_text@), store)
}

/// The texts of the four blocks of one table, ready to run as the tasks of
/// a graph.
pub struct BlockRunner {
    pub esz_text: Vec<Vec<u8>>,
    pub mtr_text: Vec<Vec<u8>>,
    pub lsig_text: Vec<Vec<u8>>,
    pub sig_text: Vec<Vec<u8>>,
    pub nxs: NxsArray,
}

impl BlockRunner {
    /// Decodes the block a task key names. The cross-section block reads
    /// its three producers through the scoped view; a missing or mismatched
    /// dependency is an error value, never an abort.
    pub fn run_block(&self, key: TaskKey, view: &DepView<DataBlock>) -> (r: Result<
        DataBlock,
        String,
    >)
        ensures
            key == 1 ==> r is Ok && is_esz_payload(
                r.unwrap(),
                lines_view(self.esz_text@),
                self.nxs.nes as int,
            ),
            key == 3 ==> r is Ok && is_mtr_payload(r.unwrap(), lines_view(self.mtr_text@)),
            key == 6 ==> ((r is Ok <==> parse_lines_spec(lines_view(self.lsig_text@)) is Some) && (
            r is Ok ==> is_lsig_payload(r.unwrap(), lines_view(self.lsig_text@)))),
            (key == 7 && view.store.wf() && view.allowed@.contains(1) && view.allowed@.contains(3)
                && view.allowed@.contains(6) && view.store@.contains_key(1) && view.store@[1] is ESZ
                && view.store@.contains_key(3) && view.store@[3] is MTR
                && view.store@.contains_key(6) && view.store@[6] is LSIG) ==> r is Ok
                && is_sig_payload(r.unwrap(), lines_view(self.sig_text@), view.store@),
    {
        if key == 1 {
            Ok(DataBlock::ESZ(ESZ::process(&self.esz_text, &self.nxs)))
        } else if key == 3 {
            let lines = copy_lines(&self.mtr_text, 0, self.mtr_text.len());
            proof {
                assert(lines_view(lines@) =~= lines_view(self.mtr_text@));
            }
            Ok(DataBlock::MTR(MTR::process(lines)))
        } else if key == 6 {
            match LSIG::from_ascii_entries(&self.lsig_text) {
                Some(l) => Ok(DataBlock::LSIG(l)),
                None => Err("LSIG: a locator field is not a decimal number".to_owned()),
            }
        } else if key == 7 {
            let esz = match view.get(1) {
                Ok(b) => match b {
                    DataBlock::ESZ(e) => e,
                    _ => {
                        return Err("SIG: the ESZ dependency holds the wrong variant".to_owned());
                    },
                },
                Err(_) => {
                    return Err("SIG: the ESZ dependency is not available".to_owned());
                },
            };
            let mtr = match view.get(3) {
                Ok(b) => match b {
                    DataBlock::MTR(m) => m,
                    _ => {
                        return Err("SIG: the MTR dependency holds the wrong variant".to_owned());
                    },
                },
                Err(_) => {
                    return Err("SIG: the MTR dependency is not available".to_owned());
                },
            };
            let lsig = match view.get(6) {
                Ok(b) => match b {
                    DataBlock::LSIG(l) => l,
                    _ => {
                        return Err("SIG: the LSIG dependency holds the wrong variant".to_owned());
                    },
                },
                Err(_) => {
                    return Err("SIG: the LSIG dependency is not available".to_owned());
                },
            };
            let lines = copy_lines(&self.sig_text, 0, self.sig_text.len());
            proof {
                assert(lines_view(lines@) =~= lines_view(self.sig_text@));
            }
            let sig = SIG::process(lines, mtr, lsig, esz);
            Ok(DataBlock::SIG(sig))
        } else {
            Err("unknown task key".to_owned())
        }
    }
}

impl TaskRunner<DataBlock> for BlockRunner {
    fn run(&self, key: TaskKey, view: &DepView<DataBlock>) -> Result<DataBlock, String> {
        self.run_block(key, view)
    }
}

impl DataBlocks {
    /// Builds the dependency graph of the four decoded blocks — the
    /// cross-section values depend on the energy grid, the reaction numbers
    /// and the locators — together with the runner holding their texts.
    pub fn construct_dag(
        block_map: &Vec<(DataBlockType, (usize, usize))>,
        entries: &Vec<Vec<u8>>,
        nxs: &NxsArray,
    ) -> (r: Option<(TaskGraph, BlockRunner)>)
        ensures
            match r {
                Some((g, runner)) => {
                    &&& dag_inputs_ok(block_map@, entries@.len() as int)
                    &&& g.wf()
                    &&& g.key_seq() == seq![1u64, 3u64, 6u64, 7u64]
                    &&& g.deps_view() == seq![
                        Seq::<usize>::empty(),
                        Seq::<usize>::empty(),
                        Seq::<usize>::empty(),
                        seq![0usize, 1usize, 2usize],
                    ]
                    &&& lines_view(runner.esz_text@) == text_of(
                        lines_view(entries@),
                        find_range_spec(block_map@, DataBlockType::ESZ),
                    )
                    &&& lines_view(runner.mtr_text@) == text_of(
                        lines_view(entries@),
                        find_range_spec(block_map@, DataBlockType::MTR),
                    )
                    &&& lines_view(runner.lsig_text@) == text_of(
                        lines_view(entries@),
                        find_range_spec(block_map@, DataBlockType::LSIG),
                    )
                    &&& lines_view(runner.sig_text@) == text_of(
                        lines_view(entries@),
                        find_range_spec(block_map@, DataBlockType::SIG),
                    )
                    &&& runner.nxs == *nxs
                },
                None => !dag_inputs_ok(block_map@, entries@.len() as int),
            },
    {
        let len = entries.len();
        let er = match find_range(block_map, DataBlockType::ESZ) {
            Some(p) => p,
            None => {
                return None;
            },
        };
        if er.0 > er.1 || er.1 > len {
            return None;
        }
        let mr = match find_range(block_map, DataBlockType::MTR) {
            Some(p) => p,
            None => {
                return None;
            },
        };
        if mr.0 > mr.1 || mr.1 > len {
            return None;
        }
        let lr = match find_range(block_map, DataBlockType::LSIG) {
            Some(p) => p,
            None => {
                return None;
            },
        };
        if lr.0 > lr.1 || lr.1 > len {
            return None;
        }
        let sr = match find_range(block_map, DataBlockType::SIG) {
            Some(p) => p,
            None => {
                return None;
            },
        };
        if sr.0 > sr.1 || sr.1 > len {
            return None;
        }
        let runner = BlockRunner {
            esz_text: copy_lines(entries, er.0, er.1),
            mtr_text: copy_lines(entries, mr.0, mr.1),
            lsig_text: copy_lines(entries, lr.0, lr.1),
            sig_text: copy_lines(entries, sr.0, sr.1),
            nxs: *nxs,
        };
        let mut g = TaskGraph::new();
        let r1 = g.add_task(Task::new(DataBlockType::ESZ.task_key()));
        if r1.is_err() {
            proof {
                assert(false);
            }
        }
        proof {
            assert forall|i: int| 0 <= i < g.key_seq().len() implies g.key_seq()[i] != 3u64 by {
                assert(g.key_seq()[i] == 1u64);
            }
        }
        let r2 = g.add_task(Task::new(DataBlockType::MTR.task_key()));
        if r2.is_err() {
            proof {
                assert(false);
            }
        }
        proof {
            assert forall|i: int| 0 <= i < g.key_seq().len() implies g.key_seq()[i] != 6u64 by {
                assert(g.key_seq()[i] == 1u64 || g.key_seq()[i] == 3u64);
            }
        }
        let r3 = g.add_task(Task::new(DataBlockType::LSIG.task_key()));
        if r3.is_err() {
            proof {
                assert(false);
            }
        }
        proof {
            assert forall|i: int| 0 <= i < g.key_seq().len() implies g.key_seq()[i] != 7u64 by {
                assert(g.key_seq()[i] == 1u64 || g.key_seq()[i] == 3u64 || g.key_seq()[i] == 6u64);
            }
        }
        let r4 = g.add_task(Task::new(DataBlockType::SIG.task_key()));
        if r4.is_err() {
            proof {
                assert(false);
            }
        }
        proof {
            assert(g.key_seq() =~= seq![1u64, 3u64, 6u64, 7u64]);
            assert(g.deps_view() =~= seq![
                Seq::<usize>::empty(),
                Seq::<usize>::empty(),
                Seq::<usize>::empty(),
                Seq::<usize>::empty(),
            ]);
            lemma_index_of_concrete(g.key_seq());
        }
        proof {
            crate::graph::lemma_unreachable_no_producers(g.deps_view(), 3, 0);
        }
        let d1 = g.add_dependency(1, 7);
        if d1.is_err() {
            proof {
                assert(false);
            }
        }
        proof {
            assert(g.deps_view() =~~= seq![
                Seq::<usize>::empty(),
                Seq::<usize>::empty(),
                Seq::<usize>::empty(),
                seq![0usize],
            ]);
        }
        proof {
            crate::graph::lemma_unreachable_no_producers(g.deps_view(), 3, 1);
        }
        let d2 = g.add_dependency(3, 7);
        if d2.is_err() {
            proof {
                assert(false);
            }
        }
        proof {
            assert(g.deps_view() =~~= seq![
                Seq::<usize>::empty(),
                Seq::<usize>::empty(),
                Seq::<usize>::empty(),
                seq![0usize, 1usize],
            ]);
        }
        proof {
            crate::graph::lemma_unreachable_no_producers(g.deps_view(), 3, 2);
        }
        let d3 = g.add_dependency(6, 7);
        if d3.is_err() {
            proof {
                assert(false);
            }
        }
        proof {
            assert(g.deps_view() =~~= seq![
                Seq::<usize>::empty(),
                Seq::<usize>::empty(),
                Seq::<usize>::empty(),
                seq![0usize, 1usize, 2usize],
            ]);
        }
        Some((g, runner))
    }
}

/// A table's XXS region decodes fully: the four blocks have sound ranges
/// and every locator field parses.
pub open spec fn ascii_decode_ok(lines_v: Seq<Seq<u8>>, nes: int, ntr: int, slots: Seq<usize>) -> bool {
    let entries = seq![Seq::<u8>::empty()] + xxs_entries_spec(lines_v);
    let map = split_spec(nes, ntr, slots, entries.len() as int, DataBlockType::all_spec().len() as int);
    &&& dag_inputs_ok(map, entries.len() as int)
    &&& parse_lines_spec(text_of(entries, find_range_spec(map, DataBlockType::LSIG))) is Some
}

/// The first ESZ value completed under the ESZ task key.
pub open spec fn find_esz(s: Seq<(TaskKey, DataBlock)>) -> Option<ESZ>
    decreases s.len(),
{
    if s.len() == 0 {
        None
    } else if s.first().0 == 1 && s.first().1 is ESZ {
        match s.first().1 {
            DataBlock::ESZ(e) => Some(e),
            _ => None,
        }
    } else {
        find_esz(s.drop_first())
    }
}

pub open spec fn find_mtr(s: Seq<(TaskKey, DataBlock)>) -> Option<MTR>
    decreases s.len(),
{
    if s.len() == 0 {
        None
    } else if s.first().0 == 3 && s.first().1 is MTR {
        match s.first().1 {
            DataBlock::MTR(m) => Some(m),
            _ => None,
        }
    } else {
        find_mtr(s.drop_first())
    }
}

pub open spec fn find_lsig(s: Seq<(TaskKey, DataBlock)>) -> Option<LSIG>
    decreases s.len(),
{
    if s.len() == 0 {
        None
    } else if s.first().0 == 6 && s.first().1 is LSIG {
        match s.first().1 {
            DataBlock::LSIG(l) => Some(l),
            _ => None,
        }
    } else {
        find_lsig(s.drop_first())
    }
}

pub open spec fn find_sig(s: Seq<(TaskKey, DataBlock)>) -> Option<SIG>
    decreases s.len(),
{
    if s.len() == 0 {
        None
    } else if s.first().0 == 7 && s.first().1 is SIG {
        match s.first().1 {
            DataBlock::SIG(g) => Some(g),
            _ => None,
        }
    } else {
        find_sig(s.drop_first())
    }
}

impl DataBlocks {
    /// Collects the completed block values of an executed graph onto the
    /// table's fields, matching each value's tag against its task key.
    #[verifier::loop_isolation(false)]
    pub fn from_dag_results(results: Vec<(TaskKey, DataBlock)>) -> (r: DataBlocks)
        ensures
            r.ESZ == find_esz(results@),
            r.MTR == find_mtr(results@),
            r.LSIG == find_lsig(results@),
            r.SIG == find_sig(results@),
    {
        let ghost orig = results@;
        let mut rest = results;
        let mut out = DataBlocks { ESZ: None, MTR: None, LSIG: None, SIG: None };
        proof {
            assert(orig.take(orig.len() as int) =~= orig);
            assert(orig.skip(orig.len() as int) =~= Seq::<(TaskKey, DataBlock)>::empty());
        }
        while rest.len() > 0
            invariant
                rest@.len() <= orig.len(),
                rest@ == orig.take(rest@.len() as int),
                out.ESZ == find_esz(orig.skip(rest@.len() as int)),
                out.MTR == find_mtr(orig.skip(rest@.len() as int)),
                out.LSIG == find_lsig(orig.skip(rest@.len() as int)),
                out.SIG == find_sig(orig.skip(rest@.len() as int)),
            decreases rest@.len(),
        {
            let ghost k = rest@.len() as int;
            let (key, block) = rest.pop().unwrap();
            proof {
                assert(orig.skip(k - 1).first() == orig[k - 1]);
                assert(orig[k - 1] == orig.take(k)[k - 1]);
                assert(orig.skip(k - 1).drop_first() =~= orig.skip(k));
                assert(rest@ =~= orig.take(k - 1));
            }
            match block {
                DataBlock::ESZ(e) => {
                    if key == 1 {
                        out.ESZ = Some(e);
                    }
                },
                DataBlock::MTR(m) => {
                    if key == 3 {
                        out.MTR = Some(m);
                    }
                },
                DataBlock::LSIG(l) => {
                    if key == 6 {
                        out.LSIG = Some(l);
                    }
                },
                DataBlock::SIG(g) => {
                    if key == 7 {
                        out.SIG = Some(g);
                    }
                },
            }
        }
        proof {
            assert(orig.skip(0) =~= orig);
        }
        out
    }
}

/// Pins down the chosen key indices of the four-task graph.
proof fn lemma_index_of_concrete(keys: Seq<TaskKey>)
    requires
        keys =~= seq![1u64, 3u64, 6u64, 7u64],
    ensures
        keys.index_of(1u64) == 0,
        keys.index_of(3u64) == 1,
        keys.index_of(6u64) == 2,
        keys.index_of(7u64) == 3,
{
    assert(keys[0] == 1u64 && keys[1] == 3u64 && keys[2] == 6u64 && keys[3] == 7u64);
    assert(keys.contains(1u64) && keys.contains(3u64) && keys.contains(6u64) && keys.contains(
        7u64,
    ));
}

proof fn lemma_find_esz_some(s: Seq<(TaskKey, DataBlock)>, i: int)
    requires
        0 <= i < s.len(),
        s[i].0 == 1,
        s[i].1 is ESZ,
        kv_keys(s).no_duplicates(),
    ensures
        find_esz(s) matches Some(e) && DataBlock::ESZ(e) == s[i].1,
    decreases s.len(),
{
    if i > 0 {
        assert(kv_keys(s)[0] == s[0].0 && kv_keys(s)[i] == s[i].0);
        assert(s.first().0 != 1);
        let t = s.drop_first();
        assert(t[i - 1] == s[i]);
        assert(kv_keys(t) =~= kv_keys(s).drop_first());
        assert forall|a: int, b: int|
            0 <= a < kv_keys(t).len() && 0 <= b < kv_keys(t).len() && a != b implies kv_keys(t)[a]
            != kv_keys(t)[b] by {
            assert(kv_keys(t)[a] == kv_keys(s)[a + 1] && kv_keys(t)[b] == kv_keys(s)[b + 1]);
        }
        lemma_find_esz_some(t, i - 1);
    }
}

proof fn lemma_find_mtr_some(s: Seq<(TaskKey, DataBlock)>, i: int)
    requires
        0 <= i < s.len(),
        s[i].0 == 3,
        s[i].1 is MTR,
        kv_keys(s).no_duplicates(),
    ensures
        find_mtr(s) matches Some(e) && DataBlock::MTR(e) == s[i].1,
    decreases s.len(),
{
    if i > 0 {
        assert(kv_keys(s)[0] == s[0].0 && kv_keys(s)[i] == s[i].0);
        assert(s.first().0 != 3);
        let t = s.drop_first();
        assert(t[i - 1] == s[i]);
        assert(kv_keys(t) =~= kv_keys(s).drop_first());
        assert forall|a: int, b: int|
            0 <= a < kv_keys(t).len() && 0 <= b < kv_keys(t).len() && a != b implies kv_keys(t)[a]
            != kv_keys(t)[b] by {
            assert(kv_keys(t)[a] == kv_keys(s)[a + 1] && kv_keys(t)[b] == kv_keys(s)[b + 1]);
        }
        lemma_find_mtr_some(t, i - 1);
    }
}

proof fn lemma_find_lsig_some(s: Seq<(TaskKey, DataBlock)>, i: int)
    requires
        0 <= i < s.len(),
        s[i].0 == 6,
        s[i].1 is LSIG,
        kv_keys(s).no_duplicates(),
    ensures
        find_lsig(s) matches Some(e) && DataBlock::LSIG(e) == s[i].1,
    decreases s.len(),
{
    if i > 0 {
        assert(kv_keys(s)[0] == s[0].0 && kv_keys(s)[i] == s[i].0);
        assert(s.first().0 != 6);
        let t = s.drop_first();
        assert(t[i - 1] == s[i]);
        assert(kv_keys(t) =~= kv_keys(s).drop_first());
        assert forall|a: int, b: int|
            0 <= a < kv_keys(t).len() && 0 <= b < kv_keys(t).len() && a != b implies kv_keys(t)[a]
            != kv_keys(t)[b] by {
            assert(kv_keys(t)[a] == kv_keys(s)[a + 1] && kv_keys(t)[b] == kv_keys(s)[b + 1]);
        }
        lemma_find_lsig_some(t, i - 1);
    }
}

proof fn lemma_find_sig_some(s: Seq<(TaskKey, DataBlock)>, i: int)
    requires
        0 <= i < s.len(),
        s[i].0 == 7,
        s[i].1 is SIG,
        kv_keys(s).no_duplicates(),
    ensures
        find_sig(s) matches Some(e) && DataBlock::SIG(e) == s[i].1,
    decreases s.len(),
{
    if i > 0 {
        assert(kv_keys(s)[0] == s[0].0 && kv_keys(s)[i] == s[i].0);
        assert(s.first().0 != 7);
        let t = s.drop_first();
        assert(t[i - 1] == s[i]);
        assert(kv_keys(t) =~= kv_keys(s).drop_first());
        assert forall|a: int, b: int|
            0 <= a < kv_keys(t).len() && 0 <= b < kv_keys(t).len() && a != b implies kv_keys(t)[a]
            != kv_keys(t)[b] by {
            assert(kv_keys(t)[a] == kv_keys(s)[a + 1] && kv_keys(t)[b] == kv_keys(s)[b + 1]);
        }
        lemma_find_sig_some(t, i - 1);
    }
}

/// Why the XXS region did not decode.
#[derive(Debug, Clone, PartialEq, Eq)]
pub enum AsciiDecodeError {
    /// A decoded block is absent from the index arrays, or its recorded
    /// extent leaves the entry array.
    IncompleteBlockLayout,
    /// A block's own decoding failed; carries the executor's report: the
    /// first failure and the keys never started.
    TaskFailed(ExecutionError),
}

impl DataBlocks {
    /// Decodes the XXS region of an ASCII table: splits the column entries
    /// into blocks, builds the dependency graph of the four decoded blocks
    /// and drives it to completion, collecting every decoded block. The
    /// error says whether the block layout was incomplete or a block's own
    /// decoding failed, and then which; a well-formed table decodes fully.
    pub fn from_ascii_xxs(lines: &Vec<Vec<u8>>, nxs: &NxsArray, jxs: &JxsArray) -> (r: Result<
        DataBlocks,
        AsciiDecodeError,
    >)
        requires
            jxs.wf(),
        ensures
            r is Ok <==> ascii_decode_ok(
                lines_view(lines@),
                nxs.nes as int,
                nxs.ntr as int,
                jxs.slots@,
            ),
            ({
                let entries = seq![Seq::<u8>::empty()] + xxs_entries_spec(lines_view(lines@));
                let map = split_spec(
                    nxs.nes as int,
                    nxs.ntr as int,
                    jxs.slots@,
                    entries.len() as int,
                    DataBlockType::all_spec().len() as int,
                );
                match r {
                    Ok(db) => {
                        &&& db.ESZ matches Some(e) && is_esz_payload(
                            DataBlock::ESZ(e),
                            text_of(entries, find_range_spec(map, DataBlockType::ESZ)),
                            nxs.nes as int,
                        )
                        &&& db.MTR matches Some(mt) && is_mtr_payload(
                            DataBlock::MTR(mt),
                            text_of(entries, find_range_spec(map, DataBlockType::MTR)),
                        )
                        &&& db.LSIG matches Some(l) && is_lsig_payload(
                            DataBlock::LSIG(l),
                            text_of(entries, find_range_spec(map, DataBlockType::LSIG)),
                        )
                        &&& db.SIG matches Some(sg) && (db.ESZ matches Some(e2) && db.MTR matches
                        Some(m2) && db.LSIG matches Some(l2) && lines_view(sg.lines@) == text_of(
                            entries,
                            find_range_spec(map, DataBlockType::SIG),
                        ) && sg.xs_locs@ == l2.xs_locs@ && sg.num_reactions == m2.lines@.len()
                            && sg.num_energies == e2.energy@.len())
                    },
                    Err(AsciiDecodeError::IncompleteBlockLayout) => !dag_inputs_ok(
                        map,
                        entries.len() as int,
                    ),
                    Err(AsciiDecodeError::TaskFailed(err)) => {
                        &&& dag_inputs_ok(map, entries.len() as int)
                        &&& parse_lines_spec(
                            text_of(entries, find_range_spec(map, DataBlockType::LSIG)),
                        ) is None
                        &&& err.failure.key == 6
                    },
                }
            }),
    {
        let entries = xxs_entries_from_lines(lines);
        let block_map = DataBlocks::split_ascii_xxs_into_blocks(nxs, jxs, &entries);
        let (graph, runner) = match DataBlocks::construct_dag(&block_map, &entries, nxs) {
            Some(p) => p,
            None => {
                return Err(AsciiDecodeError::IncompleteBlockLayout);
            },
        };
        let mut sched: Scheduler<DataBlock> = Scheduler::new(graph);
        proof {
            assert(sched@.states =~= seq![
                crate::executor::ExecState::Pending,
                crate::executor::ExecState::Pending,
                crate::executor::ExecState::Pending,
                crate::executor::ExecState::Pending,
            ]);
        }
        loop
            invariant
                sched.wf(),
                sched@.keys == seq![1u64, 3u64, 6u64, 7u64],
                sched@.deps == seq![
                    Seq::<usize>::empty(),
                    Seq::<usize>::empty(),
                    Seq::<usize>::empty(),
                    seq![0usize, 1usize, 2usize],
                ],
                forall|i: int| 0 <= i < sched@.n() ==> !((#[trigger] sched@.states[i]) is Running),
                store_payloads_ok(sched@.store, runner),
                parse_lines_spec(lines_view(runner.lsig_text@)) is Some ==> sched@.failure is None,
                sched@.states[2] is Completed ==> parse_lines_spec(
                    lines_view(runner.lsig_text@),
                ) is Some,
                sched@.failure matches Some(f) ==> f.0 == 6,
            ensures
                sched.wf(),
                sched@.keys == seq![1u64, 3u64, 6u64, 7u64],
                forall|i: int| 0 <= i < sched@.n() ==> !((#[trigger] sched@.states[i]) is Running),
                store_payloads_ok(sched@.store, runner),
                sched@.failure is Some || forall|i: int| !sched@.is_ready(i),
                parse_lines_spec(lines_view(runner.lsig_text@)) is Some ==> sched@.failure is None,
                sched@.states[2] is Completed ==> parse_lines_spec(
                    lines_view(runner.lsig_text@),
                ) is Some,
                sched@.failure matches Some(f) ==> f.0 == 6,
            decreases count_pending(sched@.states),
        {
            proof {
                lemma_count_pending_nonneg(sched@.states);
            }
            let ghost before = sched@;
            let launched = sched.launch_next();
            match launched {
                Some(k) => {
                    let ghost li = choose|i: int|
                        {
                            &&& #[trigger] before.is_first_ready(i)
                            &&& k == before.keys[i]
                            &&& sched@ == before.step_launch(i)
                        };
                    proof {
                        assert(0 <= li < 4);
                        assert(sched@.keys[li] == k);
                        assert(sched@.keys.contains(k));
                        let si = sched@.keys.index_of(k);
                        if si != li {
                            assert(sched@.keys[si] == sched@.keys[li]);
                        }
                        assert(si == li);
                        assert(sched@.states[si] is Running);
                        assert(k == 1 || k == 3 || k == 6 || k == 7);
                        lemma_index_of_concrete(sched@.keys);
                        // The cross-section value is published last: its
                        // producers could not otherwise be both completed
                        // and running.
                        if sched@.store.contains_key(7) {
                            assert(sched@.states[3] is Completed);
                            assert(sched@.states[0] is Completed && sched@.states[1] is Completed
                                && sched@.states[2] is Completed) by {
                                assert(sched@.deps[3][0] == 0usize && sched@.deps[3][1] == 1usize
                                    && sched@.deps[3][2] == 2usize);
                            }
                            assert(false);
                        }
                    }
                    let allowed = sched.declared_deps(k);
                    let view = DepView { store: &sched.store, allowed: &allowed };
                    proof {
                        if k == 7 {
                            assert(li == 3);
                            assert(before.is_ready(3));
                            assert(before.deps[3][0] == 0usize && before.deps[3][1] == 1usize
                                && before.deps[3][2] == 2usize);
                            assert(before.states[0] is Completed && before.states[1] is Completed
                                && before.states[2] is Completed);
                            assert(sched@.states[0] is Completed && sched@.states[1] is Completed
                                && sched@.states[2] is Completed);
                            assert(sched@.store.contains_key(1) && sched@.store.contains_key(3)
                                && sched@.store.contains_key(6));
                            assert(sched@.store[1] is ESZ && sched@.store[3] is MTR
                                && sched@.store[6] is LSIG);
                            assert(allowed@.len() == 3);
                            assert(allowed@[0] == 1u64 && allowed@[1] == 3u64 && allowed@[2]
                                == 6u64);
                            assert(allowed@.contains(1u64) && allowed@.contains(3u64)
                                && allowed@.contains(6u64));
                        }
                    }
                    let outcome = runner.run_block(k, &view);
                    let ghost mid = sched@;
                    match outcome {
                        Ok(v) => {
                            sched.report_success(k, v);
                            proof {
                                assert(sched@.store =~= mid.store.insert(k, v));
                                assert(store_payloads_ok(sched@.store, runner)) by {
                                    let post = sched@.store;
                                    if post.contains_key(1) && k != 1 {
                                        assert(post[1] == mid.store[1]);
                                    }
                                    if post.contains_key(3) && k != 3 {
                                        assert(post[3] == mid.store[3]);
                                    }
                                    if post.contains_key(6) && k != 6 {
                                        assert(post[6] == mid.store[6]);
                                    }
                                    if post.contains_key(7) {
                                        // 7 was absent before, so it is the
                                        // value just published.
                                        assert(k == 7);
                                        assert(is_sig_payload(
                                            v,
                                            lines_view(runner.sig_text@),
                                            mid.store,
                                        ));
                                        assert(post[1] == mid.store[1] && post[3] == mid.store[3]
                                            && post[6] == mid.store[6]);
                                        assert(is_sig_payload(
                                            v,
                                            lines_view(runner.sig_text@),
                                            post,
                                        ));
                                    }
                                }
                            }
                        },
                        Err(cause) => {
                            proof {
                                assert(k == 6);
                                assert(!(parse_lines_spec(
                                    lines_view(runner.lsig_text@),
                                ) is Some));
                                assert(mid.keys[2] == 6u64);
                            }
                            sched.report_failure(k, cause);
                        },
                    }
                    proof {
                        let si = mid.keys.index_of(k);
                        assert(si == li);
                        assert forall|t: int| 0 <= t < sched@.n() implies !((
                        #[trigger] sched@.states[t]) is Running) by {
                            if t != li {
                                assert(sched@.states[t] == before.states[t]);
                            }
                        }
                        lemma_count_pending_nonneg(sched@.states);
                    }
                },
                None => {
                    break ;
                },
            }
        }
        proof {
            if sched@.failure is None {
                if exists|i: int| 0 <= i < sched@.n() && (#[trigger] sched@.states[i]) is Pending {
                    lemma_progress(sched@);
                    assert(false);
                }
                assert forall|i: int| 0 <= i < sched@.n() implies (#[trigger] sched@.states[i]) is
                Completed by {
                    assert(!(sched@.states[i] is Pending));
                    assert(!(sched@.states[i] is Running));
                    assert(!(sched@.states[i] is Failed));
                }
            }
            assert(sched@.finished());
        }
        let ghost m = sched@;
        let outcome = sched.into_outcome();
        match outcome {
            Ok(store) => {
                let ghost pairs_view = store.entry_seq();
                proof {
                    assert(store@.dom() == m.keys.to_set());
                    assert(m.keys.contains(1u64) && m.keys.contains(3u64) && m.keys.contains(6u64)
                        && m.keys.contains(7u64));
                    assert(store@.contains_key(1) && store@.contains_key(3) && store@.contains_key(
                        6,
                    ) && store@.contains_key(7));
                    lemma_kv_map_props(pairs_view);
                    assert(kv_keys(pairs_view).contains(1u64));
                    assert(kv_keys(pairs_view).contains(3u64));
                    assert(kv_keys(pairs_view).contains(6u64));
                    assert(kv_keys(pairs_view).contains(7u64));
                    let i1 = choose|t: int|
                        0 <= t < kv_keys(pairs_view).len() && kv_keys(pairs_view)[t] == 1u64;
                    assert(pairs_view[i1].0 == 1u64);
                    assert(pairs_view[i1].1 == store@[1]);
                    lemma_find_esz_some(pairs_view, i1);
                    let i3 = choose|t: int|
                        0 <= t < kv_keys(pairs_view).len() && kv_keys(pairs_view)[t] == 3u64;
                    assert(pairs_view[i3].0 == 3u64);
                    assert(pairs_view[i3].1 == store@[3]);
                    lemma_find_mtr_some(pairs_view, i3);
                    let i6 = choose|t: int|
                        0 <= t < kv_keys(pairs_view).len() && kv_keys(pairs_view)[t] == 6u64;
                    assert(pairs_view[i6].0 == 6u64);
                    assert(pairs_view[i6].1 == store@[6]);
                    lemma_find_lsig_some(pairs_view, i6);
                    let i7 = choose|t: int|
                        0 <= t < kv_keys(pairs_view).len() && kv_keys(pairs_view)[t] == 7u64;
                    assert(pairs_view[i7].0 == 7u64);
                    assert(pairs_view[i7].1 == store@[7]);
                    lemma_find_sig_some(pairs_view, i7);
                }
                let pairs = store.drain_all();
                let db = DataBlocks::from_dag_results(pairs);
                proof {
                    assert(lines_view(entries@) == seq![Seq::<u8>::empty()] + xxs_entries_spec(
                        lines_view(lines@),
                    ));
                    assert(is_esz_payload(
                        m.store[1],
                        lines_view(runner.esz_text@),
                        runner.nxs.nes as int,
                    ));
                    assert(is_mtr_payload(m.store[3], lines_view(runner.mtr_text@)));
                    assert(is_lsig_payload(m.store[6], lines_view(runner.lsig_text@)));
                    assert(is_sig_payload(m.store[7], lines_view(runner.sig_text@), m.store));
                }
                Ok(db)
            },
            Err(e) => Err(AsciiDecodeError::TaskFailed(e)),
        }
    }
}

} // verus!
