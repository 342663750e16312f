use crate::parse::{chars_of, string_of};
use vstd::prelude::*;

verus! {

/// `buf` ends with a blank line: `\n\n` or `\n\r\n`.
pub open spec fn ends_record(buf: Seq<char>) -> bool {
    (buf.len() >= 2 && buf[buf.len() - 2] == '\n' && buf[buf.len() - 1] == '\n') || (buf.len() >= 3
        && buf[buf.len() - 3] == '\n' && buf[buf.len() - 2] == '\r' && buf[buf.len() - 1] == '\n')
}

/// No proper prefix of `rec` ends with a blank line.
pub open spec fn no_inner_break(rec: Seq<char>) -> bool {
    forall|k: int| 0 < k < rec.len() ==> !#[trigger] ends_record(rec.subrange(0, k))
}

/// `recs` cut `text` into records, each ending at its first blank line; the last record
/// may instead end with the text.
pub open spec fn records_of(text: Seq<char>, recs: Seq<Seq<char>>) -> bool {
    &&& recs.flatten() == text
    &&& forall|i: int| 0 <= i < recs.len() ==> (#[trigger] recs[i]).len() > 0 && no_inner_break(recs[i])
    &&& forall|i: int| 0 <= i < recs.len() - 1 ==> ends_record(#[trigger] recs[i])
}

/// `true` when `buf` ends with a blank line.
fn is_new_field(buf: &Vec<char>, start: usize, end: usize) -> (r: bool)
    requires
        start <= end <= buf@.len(),
    ensures
        r == ends_record(buf@.subrange(start as int, end as int)),
{
    let n = end - start;
    (n >= 2 && buf[end - 2] == '\n' && buf[end - 1] == '\n') || (n >= 3 && buf[end - 3] == '\n' && buf[end - 2] == '\r'
        && buf[end - 1] == '\n')
}

/// Cut text into records separated by blank lines; each record keeps its own line ends and
/// the blank line that closes it.
pub fn parse_newline_sep_reader(text: &str) -> (r: Vec<String>)
    ensures
        records_of(text@, r@.map_values(|s: String| s@)),
{
    let chars = chars_of(text);
    let n = chars.len();
    let mut out: Vec<String> = Vec::new();
    let mut start: usize = 0;
    let mut i: usize = 0;
    proof {
        assert(out@.map_values(|s: String| s@) =~= Seq::<Seq<char>>::empty());
        assert(chars@.subrange(0, 0) =~= Seq::<char>::empty());
        assert(Seq::<Seq<char>>::empty().flatten() =~= Seq::<char>::empty());
    }
    while i < n
        invariant
            chars@ == text@,
            n == chars@.len(),
            start <= i <= n,
            records_of(chars@.subrange(0, start as int), out@.map_values(|s: String| s@)),
            out@.len() > 0 ==> ends_record(out@.last()@),
            forall|k: int| start < k <= i ==> !#[trigger] ends_record(chars@.subrange(start as int, k)),
        decreases n - i,
    {
        i += 1;
        if is_new_field(&chars, start, i) {
            let rec = string_of(slice_of(&chars, start, i).as_slice());
            proof {
                let old_recs = out@.map_values(|s: String| s@);
                let new_recs = old_recs.push(rec@);
                assert(out@.push(rec).map_values(|s: String| s@) =~= new_recs);
                lemma_flatten_push(old_recs, rec@);
                assert(chars@.subrange(0, start as int) + chars@.subrange(start as int, i as int) =~= chars@.subrange(0, i as int));
                assert forall|k: int| 0 < k < rec@.len() implies !#[trigger] ends_record(rec@.subrange(0, k)) by {
                    assert(rec@.subrange(0, k) =~= chars@.subrange(start as int, start + k));
                }
            }
            out.push(rec);
            start = i;
        }
    }
    if start < n {
        let rec = string_of(slice_of(&chars, start, n).as_slice());
        proof {
            let old_recs = out@.map_values(|s: String| s@);
            assert(out@.push(rec).map_values(|s: String| s@) =~= old_recs.push(rec@));
            lemma_flatten_push(old_recs, rec@);
            assert(chars@.subrange(0, start as int) + chars@.subrange(start as int, n as int) =~= chars@.subrange(0, n as int));
            assert forall|k: int| 0 < k < rec@.len() implies !#[trigger] ends_record(rec@.subrange(0, k)) by {
                assert(rec@.subrange(0, k) =~= chars@.subrange(start as int, start + k));
            }
        }
        out.push(rec);
    }
    proof {
        assert(chars@.subrange(0, n as int) =~= chars@);
    }
    out
}

/// The characters `v[from..to]`.
fn slice_of(v: &Vec<char>, from: usize, to: usize) -> (r: Vec<char>)
    requires
        from <= to <= v@.len(),
    ensures
        r@ == v@.subrange(from as int, to as int),
{
    let mut out: Vec<char> = Vec::new();
    let mut k: usize = from;
    while k < to
        invariant
            from <= k <= to,
            to <= v@.len(),
            out@ == v@.subrange(from as int, k as int),
        decreases to - k,
    {
        out.push(v[k]);
        proof {
            assert(out@ =~= v@.subrange(from as int, k + 1));
        }
        k += 1;
    }
    out
}

proof fn lemma_flatten_push(recs: Seq<Seq<char>>, rec: Seq<char>)
    ensures
        recs.push(rec).flatten() == recs.flatten() + rec,
{
    recs.lemma_flatten_push(rec);
}

/// Why text could not be read as a first record followed by more.
#[derive(Debug)]
pub enum TwoPhaseError {
    /// Reading the text failed.
    Io(String),
    /// There was no first record.
    NoFirstLine,
}

/// Cut text into records separated by blank lines, and take the first one apart.
pub fn parse_two_phase_reader(text: &str) -> (r: Result<(String, Vec<String>), TwoPhaseError>)
    ensures
        r is Err <==> text@.len() == 0,
        r matches Err(e) ==> e is NoFirstLine,
        r matches Ok((first, rest)) ==> records_of(text@, seq![first@] + rest@.map_values(|s: String| s@)),
{
    let mut all = parse_newline_sep_reader(text);
    if all.len() == 0 {
        proof {
            assert(all@.map_values(|s: String| s@) =~= Seq::<Seq<char>>::empty());
        }
        return Err(TwoPhaseError::NoFirstLine);
    }
    let ghost recs = all@.map_values(|s: String| s@);
    let first = all.remove(0);
    proof {
        assert(seq![first@] + all@.map_values(|s: String| s@) =~= recs);
        if text@.len() == 0 {
            assert(recs[0].len() > 0);
            recs.lemma_flatten_push(recs[0]);
            assert(recs =~= seq![recs[0]] + recs.drop_first());
        }
    }
    Ok((first, all))
}

/// The fields joined again with a comma between each two.
pub open spec fn joined(fields: Seq<Seq<char>>) -> Seq<char>
    decreases fields.len(),
{
    if fields.len() == 0 {
        Seq::empty()
    } else if fields.len() == 1 {
        fields[0]
    } else {
        joined(fields.drop_last()) + seq![','] + fields.last()
    }
}

/// Split `s` at every comma; whitespace is kept.
pub fn split_commas(s: &str) -> (r: Vec<String>)
    ensures
        r@.len() >= 1,
        joined(r@.map_values(|f: String| f@)) == s@,
        forall|i: int| 0 <= i < r@.len() ==> !(#[trigger] r@[i])@.contains(','),
{
    let chars = chars_of(s);
    let n = chars.len();
    let mut out: Vec<String> = Vec::new();
    let mut start: usize = 0;
    let mut i: usize = 0;
    while i < n
        invariant
            chars@ == s@,
            n == chars@.len(),
            start <= i <= n,
            out@.len() == 0 ==> start == 0,
            out@.len() > 0 ==> start > 0 && chars@[start - 1] == ',' && joined(out@.map_values(|f: String| f@)) == chars@.subrange(0, start - 1),
            forall|k: int| 0 <= k < out@.len() ==> !(#[trigger] out@[k])@.contains(','),
            forall|k: int| start <= k < i ==> chars@[k] != ',',
        decreases n - i,
    {
        if chars[i] == ',' {
            let field = string_of(slice_of(&chars, start, i).as_slice());
            proof {
                let old_fields = out@.map_values(|f: String| f@);
                let new_fields = out@.push(field).map_values(|f: String| f@);
                assert(new_fields =~= old_fields.push(field@));
                assert(new_fields.drop_last() =~= old_fields);
                if out@.len() > 0 {
                    assert(chars@.subrange(0, start - 1) + seq![','] + chars@.subrange(start as int, i as int) =~= chars@.subrange(0, i as int));
                } else {
                    assert(chars@.subrange(start as int, i as int) =~= chars@.subrange(0, i as int));
                }
                assert(!field@.contains(',')) by {
                    if field@.contains(',') {
                        let k = choose|k: int| 0 <= k < field@.len() && field@[k] == ',';
                        assert(chars@[start + k] == ',');
                    }
                }
            }
            out.push(field);
            start = i + 1;
        }
        i += 1;
    }
    let field = string_of(slice_of(&chars, start, n).as_slice());
    proof {
        let old_fields = out@.map_values(|f: String| f@);
        let new_fields = out@.push(field).map_values(|f: String| f@);
        assert(new_fields =~= old_fields.push(field@));
        assert(new_fields.drop_last() =~= old_fields);
        if out@.len() > 0 {
            assert(chars@.subrange(0, start - 1) + seq![','] + chars@.subrange(start as int, n as int) =~= chars@);
        } else {
            assert(chars@.subrange(start as int, n as int) =~= chars@);
        }
        assert(!field@.contains(',')) by {
            if field@.contains(',') {
                let k = choose|k: int| 0 <= k < field@.len() && field@[k] == ',';
                assert(chars@[start + k] == ',');
            }
        }
    }
    out.push(field);
    out
}

/// Items of one line that were separated by commas, whitespace kept.
pub struct CommaSep<T>(pub Vec<T>);

/// Items of one line that were separated by commas, each trimmed of surrounding whitespace.
pub struct TrimmedCommaSep<T>(pub Vec<T>);

} // verus!
