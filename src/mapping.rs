use vstd::prelude::*;

use crate::split::{split_ranges, split_spec};
use crate::text::chars_of;
use crate::vlq::{decode_range, decode_spec, fits_i32, VLQError};

verus! {

/// One decoded segment: a position in the generated code and, when the segment has
/// them, the source position and name it maps to.
#[derive(Debug, Clone, Copy, PartialEq, Eq, Structural)]
pub struct SourceMapping {
    pub generated_line: i32,
    pub generated_column: i32,
    pub original_line: Option<i32>,
    pub original_column: Option<i32>,
    pub source_index: Option<i32>,
    pub name_index: Option<i32>,
}

/// The running totals of one decode. The generated column starts again at zero on each
/// generated line; the other four run over the whole mappings string.
#[derive(Debug, Clone, Copy, PartialEq, Eq, Structural)]
pub struct Accumulator {
    pub generated_column: i32,
    pub source_index: i32,
    pub original_line: i32,
    pub original_column: i32,
    pub name_index: i32,
}

pub open spec fn accumulator_start() -> Accumulator {
    Accumulator {
        generated_column: 0,
        source_index: 0,
        original_line: 0,
        original_column: 0,
        name_index: 0,
    }
}

/// The totals at the start of a generated line: the column back to zero, the rest kept.
pub open spec fn line_start(a: Accumulator) -> Accumulator {
    Accumulator {
        generated_column: 0,
        source_index: a.source_index,
        original_line: a.original_line,
        original_column: a.original_column,
        name_index: a.name_index,
    }
}

/// The `k`-th decoded value of a segment, or zero where the segment is shorter.
pub open spec fn delta(v: Seq<i32>, k: int) -> int {
    if k < v.len() {
        v[k] as int
    } else {
        0
    }
}

/// Applying the decoded values `v` (at least one) of a segment on generated line `line`:
/// the new totals and the record.
pub open spec fn segment_spec(a: Accumulator, line: int, v: Seq<i32>) -> Result<
    (Accumulator, SourceMapping),
    VLQError,
> {
    let col = a.generated_column + v[0];
    let has_source = v.len() > 1;
    let has_name = v.len() > 4;
    let src = a.source_index + delta(v, 1);
    let ol = a.original_line + delta(v, 2);
    let oc = a.original_column + delta(v, 3);
    let name = a.name_index + delta(v, 4);
    if !fits_i32(line) || !fits_i32(col) || (has_source && !(fits_i32(src) && fits_i32(ol)
        && fits_i32(oc))) || (has_name && !fits_i32(name)) {
        Err(VLQError::ValueOutOfRange)
    } else {
        let next = Accumulator {
            generated_column: col as i32,
            source_index: if has_source { src as i32 } else { a.source_index },
            original_line: if has_source { ol as i32 } else { a.original_line },
            original_column: if has_source { oc as i32 } else { a.original_column },
            name_index: if has_name { name as i32 } else { a.name_index },
        };
        let rec = SourceMapping {
            generated_line: line as i32,
            generated_column: col as i32,
            original_line: if has_source { Some(ol as i32) } else { None },
            original_column: if has_source { Some(oc as i32) } else { None },
            source_index: if has_source { Some(src as i32) } else { None },
            name_index: if has_name { Some(name as i32) } else { None },
        };
        Ok((next, rec))
    }
}

/// Decoding the segments `segs` of generated line `line`, in order, from totals `a`.
/// A segment that decodes to no values gives no record.
pub open spec fn line_spec(a: Accumulator, line: int, segs: Seq<Seq<char>>) -> Result<
    (Accumulator, Seq<SourceMapping>),
    VLQError,
>
    decreases segs.len(),
{
    if segs.len() == 0 {
        Ok((a, Seq::<SourceMapping>::empty()))
    } else {
        match line_spec(a, line, segs.drop_last()) {
            Err(e) => Err(e),
            Ok((a1, recs)) => match decode_spec(segs.last()) {
                Err(e) => Err(e),
                Ok(v) => if v.len() == 0 {
                    Ok((a1, recs))
                } else {
                    match segment_spec(a1, line, v) {
                        Err(e) => Err(e),
                        Ok((a2, r)) => Ok((a2, recs.push(r))),
                    }
                },
            },
        }
    }
}

/// Decoding the generated lines `lines`, in order, from totals `a`; the generated line
/// of each is its position in `lines`.
pub open spec fn lines_spec(a: Accumulator, lines: Seq<Seq<char>>) -> Result<
    (Accumulator, Seq<SourceMapping>),
    VLQError,
>
    decreases lines.len(),
{
    if lines.len() == 0 {
        Ok((a, Seq::<SourceMapping>::empty()))
    } else {
        match lines_spec(a, lines.drop_last()) {
            Err(e) => Err(e),
            Ok((a1, recs)) => match line_spec(
                line_start(a1),
                lines.len() - 1,
                split_spec(lines.last(), ','),
            ) {
                Err(e) => Err(e),
                Ok((a2, more)) => Ok((a2, recs + more)),
            },
        }
    }
}

/// The records of a whole mappings string, or the first failure.
pub open spec fn mappings_spec(m: Seq<char>) -> Result<Seq<SourceMapping>, VLQError> {
    match lines_spec(accumulator_start(), split_spec(m, ';')) {
        Err(e) => Err(e),
        Ok((_, recs)) => Ok(recs),
    }
}

proof fn lemma_line_err(a: Accumulator, line: int, segs: Seq<Seq<char>>, k: int)
    requires
        0 <= k <= segs.len(),
        line_spec(a, line, segs.take(k)) is Err,
    ensures
        line_spec(a, line, segs) == line_spec(a, line, segs.take(k)),
    decreases segs.len(),
{
    if k == segs.len() {
        assert(segs.take(k) =~= segs);
    } else {
        assert(segs.drop_last().take(k) =~= segs.take(k));
        lemma_line_err(a, line, segs.drop_last(), k);
    }
}

proof fn lemma_lines_err(a: Accumulator, lines: Seq<Seq<char>>, k: int)
    requires
        0 <= k <= lines.len(),
        lines_spec(a, lines.take(k)) is Err,
    ensures
        lines_spec(a, lines) == lines_spec(a, lines.take(k)),
    decreases lines.len(),
{
    if k == lines.len() {
        assert(lines.take(k) =~= lines);
    } else {
        assert(lines.drop_last().take(k) =~= lines.take(k));
        lemma_lines_err(a, lines.drop_last(), k);
    }
}

proof fn lemma_line_failed(
    lines: Seq<Seq<char>>,
    i: int,
    prev: Accumulator,
    recs: Seq<SourceMapping>,
    e: VLQError,
)
    requires
        0 <= i < lines.len(),
        lines_spec(accumulator_start(), lines.take(i)) == Ok::<
            (Accumulator, Seq<SourceMapping>),
            VLQError,
        >((prev, recs)),
        line_spec(line_start(prev), i, split_spec(lines[i], ',')) == Err::<
            (Accumulator, Seq<SourceMapping>),
            VLQError,
        >(e),
    ensures
        lines_spec(accumulator_start(), lines.take(i + 1)) == Err::<
            (Accumulator, Seq<SourceMapping>),
            VLQError,
        >(e),
{
    let t = lines.take(i + 1);
    assert(t.drop_last() =~= lines.take(i));
    assert(t.last() == lines[i]);
}

/// Each generated line starts from the totals that the previous lines left, with only the
/// generated column set back to zero: the source index, original line, original column
/// and name index carry over from one line to the next.
pub proof fn lemma_line_carries_totals(
    a: Accumulator,
    lines: Seq<Seq<char>>,
    next: Seq<char>,
)
    requires
        lines_spec(a, lines) is Ok,
    ensures
        ({
            let (p, recs) = lines_spec(a, lines)->Ok_0;
            lines_spec(a, lines.push(next)) == match line_spec(
                Accumulator {
                    generated_column: 0,
                    source_index: p.source_index,
                    original_line: p.original_line,
                    original_column: p.original_column,
                    name_index: p.name_index,
                },
                lines.len() as int,
                split_spec(next, ','),
            ) {
                Err(e) => Err(e),
                Ok((a2, more)) => Ok((a2, recs + more)),
            }
        }),
{
    assert(lines.push(next).drop_last() =~= lines);
}

/// A segment with a column value only.
pub open spec fn column_only(seg: Seq<char>) -> bool {
    decode_spec(seg) matches Ok(v) && v.len() <= 1
}

/// A line whose segments each carry at most a column value leaves the source index,
/// original line, original column and name index as they were, and its records map to
/// no source position.
pub proof fn lemma_column_only_line_keeps_totals(a: Accumulator, line: int, segs: Seq<Seq<char>>)
    requires
        forall|k: int| 0 <= k < segs.len() ==> #[trigger] column_only(segs[k]),
        line_spec(a, line, segs) is Ok,
    ensures
        ({
            let (a2, recs) = line_spec(a, line, segs)->Ok_0;
            &&& a2.source_index == a.source_index
            &&& a2.original_line == a.original_line
            &&& a2.original_column == a.original_column
            &&& a2.name_index == a.name_index
            &&& forall|k: int|
                0 <= k < recs.len() ==> (#[trigger] recs[k]).source_index is None
                    && recs[k].original_line is None && recs[k].original_column is None
                    && recs[k].name_index is None
        }),
    decreases segs.len(),
{
    if segs.len() > 0 {
        let prefix = segs.drop_last();
        assert forall|k: int| 0 <= k < prefix.len() implies #[trigger] column_only(prefix[k]) by {
            assert(prefix[k] == segs[k]);
        }
        assert(column_only(segs[segs.len() - 1]));
        lemma_column_only_line_keeps_totals(a, line, prefix);
    }
}

impl Accumulator {
    /// All five totals at zero.
    pub fn new() -> (r: Accumulator)
        ensures
            r == accumulator_start(),
    {
        Accumulator {
            generated_column: 0,
            source_index: 0,
            original_line: 0,
            original_column: 0,
            name_index: 0,
        }
    }

    /// Starts a generated line: the column goes back to zero, the other totals stay.
    pub fn start_line(&mut self)
        ensures
            *final(self) == line_start(*old(self)),
    {
        self.generated_column = 0;
    }

    /// Adds the decoded values of one segment on generated line `line` to the totals and
    /// returns its record. On failure the totals are left as they were.
    pub fn apply(&mut self, line: usize, values: &Vec<i32>) -> (r: Result<SourceMapping, VLQError>)
        requires
            values@.len() > 0,
        ensures
            match segment_spec(*old(self), line as int, values@) {
                Ok((next, rec)) => r == Ok::<SourceMapping, VLQError>(rec) && *final(self) == next,
                Err(e) => r == Err::<SourceMapping, VLQError>(e) && *final(self) == *old(self),
            },
    {
        let n = values.len();
        if line > 2147483647 {
            return Err(VLQError::ValueOutOfRange);
        }
        let col: i64 = self.generated_column as i64 + values[0] as i64;
        if col < -2147483648 || col > 2147483647 {
            return Err(VLQError::ValueOutOfRange);
        }
        let mut next = *self;
        next.generated_column = col as i32;
        let mut rec = SourceMapping {
            generated_line: line as i32,
            generated_column: col as i32,
            original_line: None,
            original_column: None,
            source_index: None,
            name_index: None,
        };
        if n > 1 {
            let d2: i32 = if n > 2 { values[2] } else { 0 };
            let d3: i32 = if n > 3 { values[3] } else { 0 };
            let src: i64 = self.source_index as i64 + values[1] as i64;
            let ol: i64 = self.original_line as i64 + d2 as i64;
            let oc: i64 = self.original_column as i64 + d3 as i64;
            if src < -2147483648 || src > 2147483647 || ol < -2147483648 || ol > 2147483647
                || oc < -2147483648 || oc > 2147483647 {
                return Err(VLQError::ValueOutOfRange);
            }
            next.source_index = src as i32;
            next.original_line = ol as i32;
            next.original_column = oc as i32;
            rec.source_index = Some(src as i32);
            rec.original_line = Some(ol as i32);
            rec.original_column = Some(oc as i32);
            if n > 4 {
                let name: i64 = self.name_index as i64 + values[4] as i64;
                if name < -2147483648 || name > 2147483647 {
                    return Err(VLQError::ValueOutOfRange);
                }
                next.name_index = name as i32;
                rec.name_index = Some(name as i32);
            }
        }
        *self = next;
        Ok(rec)
    }
}

/// Decodes the `mappings` string of a source map into its records, in order: by generated
/// line (the position of the `;`-separated group), then by segment within the line.
/// The first segment that cannot be decoded fails the whole decode.
pub fn process_mappings(mappings: &str) -> (r: Result<Vec<SourceMapping>, VLQError>)
    ensures
        match r {
            Ok(v) => mappings_spec(mappings@) == Ok::<Seq<SourceMapping>, VLQError>(v@),
            Err(e) => mappings_spec(mappings@) == Err::<Seq<SourceMapping>, VLQError>(e),
        },
{
    let chars = chars_of(mappings);
    let ghost lines = split_spec(chars@, ';');
    proof {
        assert(chars@.subrange(0, chars@.len() as int) =~= chars@);
    }
    let line_ranges = split_ranges(&chars, 0, chars.len(), ';');
    let mut result: Vec<SourceMapping> = Vec::new();
    let mut acc = Accumulator::new();
    let mut li: usize = 0;
    proof {
        assert(lines.take(0) =~= Seq::<Seq<char>>::empty());
    }
    while li < line_ranges.len()
        invariant
            chars@ == mappings@,
            lines == split_spec(chars@, ';'),
            line_ranges@.len() == lines.len(),
            forall|k: int|
                0 <= k < line_ranges@.len() ==> (#[trigger] line_ranges@[k]).0 <= line_ranges@[k].1
                    <= chars@.len() && chars@.subrange(line_ranges@[k].0 as int, line_ranges@[k].1 as int)
                    == lines[k],
            0 <= li <= lines.len(),
            lines_spec(accumulator_start(), lines.take(li as int)) == Ok::<
                (Accumulator, Seq<SourceMapping>),
                VLQError,
            >((acc, result@)),
        decreases line_ranges@.len() - li,
    {
        let (ls, le) = line_ranges[li];
        let ghost line = lines[li as int];
        let ghost segs = split_spec(line, ',');
        let ghost before = result@;
        let ghost prev_acc = acc;
        acc.start_line();
        let ghost first = acc;
        let seg_ranges = split_ranges(&chars, ls, le, ',');
        let mut si: usize = 0;
        proof {
            assert(segs.take(0) =~= Seq::<Seq<char>>::empty());
            assert(before + Seq::<SourceMapping>::empty() =~= before);
        }
        while si < seg_ranges.len()
            invariant
                chars@ == mappings@,
                lines == split_spec(chars@, ';'),
                0 <= li < lines.len(),
                line == lines[li as int],
                segs == split_spec(line, ','),
                ls <= le <= chars@.len(),
                line == chars@.subrange(ls as int, le as int),
                seg_ranges@.len() == segs.len(),
                forall|k: int|
                    0 <= k < seg_ranges@.len() ==> (#[trigger] seg_ranges@[k]).0 <= seg_ranges@[k].1
                        <= chars@.len() && chars@.subrange(
                        seg_ranges@[k].0 as int,
                        seg_ranges@[k].1 as int,
                    ) == segs[k],
                0 <= si <= segs.len(),
                first == line_start(prev_acc),
                lines_spec(accumulator_start(), lines.take(li as int)) == Ok::<
                    (Accumulator, Seq<SourceMapping>),
                    VLQError,
                >((prev_acc, before)),
                line_spec(first, li as int, segs.take(si as int)) matches Ok((a, recs)) && a == acc
                    && result@ == before + recs,
            decreases seg_ranges@.len() - si,
        {
            let (ss, se) = seg_ranges[si];
            proof {
                assert(segs.take(si + 1).drop_last() =~= segs.take(si as int));
                assert(segs.take(si + 1).last() == segs[si as int]);
            }
            let values = match decode_range(&chars, ss, se) {
                Ok(v) => v,
                Err(e) => {
                    proof {
                        lemma_line_err(first, li as int, segs, si + 1);
                        lemma_line_failed(lines, li as int, prev_acc, before, e);
                        lemma_lines_err(accumulator_start(), lines, li + 1);
                    }
                    return Err(e);
                },
            };
            if values.len() > 0 {
                match acc.apply(li, &values) {
                    Ok(rec) => {
                        result.push(rec);
                    },
                    Err(e) => {
                        proof {
                            lemma_line_err(first, li as int, segs, si + 1);
                            lemma_line_failed(lines, li as int, prev_acc, before, e);
                            lemma_lines_err(accumulator_start(), lines, li + 1);
                        }
                        return Err(e);
                    },
                }
            }
            si = si + 1;
        }
        proof {
            assert(segs.take(segs.len() as int) =~= segs);
            assert(lines.take(li + 1).drop_last() =~= lines.take(li as int));
            assert(lines.take(li + 1).last() == line);
        }
        li = li + 1;
    }
    proof {
        assert(lines.take(lines.len() as int) =~= lines);
    }
    Ok(result)
}

} // verus!
