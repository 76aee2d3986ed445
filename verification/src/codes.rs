//! Codec frames read from JSON, with shape one by sixteen by frames.

use crate::text::{self, decimal_text};
use vstd::prelude::*;

verus! {

/// The quantizers that a codec frame has.
pub const QUANTIZERS: usize = 16;

/// `serde_json`'s error, carried through.
#[verifier::external_type_specification]
#[verifier::external_body]
pub struct ExJsonError(serde_json::Error);

/// The three-level nesting of integers as sequences.
pub open spec fn nested(values: Seq<Vec<Vec<i64>>>) -> Seq<Seq<Seq<i64>>> {
    values.map_values(|rows: Vec<Vec<i64>>| rows@.map_values(|row: Vec<i64>| row@))
}

/// The nested arrays of 64-bit integers that JSON text holds, if it holds such.
pub uninterp spec fn json_arrays(text: Seq<char>) -> Option<Seq<Seq<Seq<i64>>>>;

/// `serde_json::from_str` on three levels of vectors of `i64`: whether the text is
/// such JSON, and what it then holds, depends on the text alone. Of the error
/// nothing is said.
#[verifier::external_body]
fn parse_json(text: &str) -> (r: Result<Vec<Vec<Vec<i64>>>, serde_json::Error>)
    ensures
        match r {
            Ok(values) => json_arrays(text@) == Some(nested(values@)),
            Err(_) => json_arrays(text@) is None,
        },
{
    serde_json::from_str(text)
}

/// Why codes are refused.
#[derive(Debug)]
pub enum CodesError {
    /// The text is not JSON of the right form.
    Json(serde_json::Error),
    /// There is not one batch.
    BatchSize(usize),
    /// There are not sixteen quantizers.
    QuantizerCount(usize),
    /// The quantizers differ in their number of frames.
    FrameCounts,
}

impl CodesError {
    /// The message, where it does not come from the JSON parser.
    pub fn message(&self) -> (r: Option<String>)
        ensures
            match *self {
                CodesError::Json(_) => r is None,
                CodesError::BatchSize(n) => r matches Some(m) && m@
                    == "codes JSON must have batch size 1, got "@ + decimal_text(n as nat),
                CodesError::QuantizerCount(n) => r matches Some(m) && m@
                    == "codes JSON must have 16 quantizers, got "@ + decimal_text(n as nat),
                CodesError::FrameCounts => r matches Some(m) && m@
                    == "codes JSON quantizers have inconsistent frame counts"@,
            },
    {
        match self {
            CodesError::Json(_) => None,
            CodesError::BatchSize(n) => Some(
                text::concat(
                    "codes JSON must have batch size 1, got ",
                    text::decimal(*n as u64).as_str(),
                ),
            ),
            CodesError::QuantizerCount(n) => Some(
                text::concat(
                    "codes JSON must have 16 quantizers, got ",
                    text::decimal(*n as u64).as_str(),
                ),
            ),
            CodesError::FrameCounts => Some(
                "codes JSON quantizers have inconsistent frame counts".to_owned(),
            ),
        }
    }
}

/// Codes of one batch, quantizer after quantizer.
#[derive(Debug)]
pub struct Codes {
    /// The codes of the first quantizer, then those of the second, and so on.
    pub flat: Vec<i64>,
    /// How many quantizers there are.
    pub quantizers: usize,
    /// How many frames each of them has.
    pub frames: usize,
}

/// The rows one after the other.
pub open spec fn flattened(rows: Seq<Seq<i64>>) -> Seq<i64>
    decreases rows.len(),
{
    if rows.len() == 0 {
        Seq::empty()
    } else {
        flattened(rows.drop_last()) + rows.last()
    }
}

/// Whether every row has the length of the first.
pub open spec fn even_rows(rows: Seq<Seq<i64>>) -> bool {
    forall|i: int| 0 <= i < rows.len() ==> (#[trigger] rows[i]).len() == rows[0].len()
}

/// Whether `r` is what nested arrays give as codes.
pub open spec fn gives_codes(r: Result<Codes, CodesError>, values: Seq<Seq<Seq<i64>>>) -> bool {
    if values.len() != 1 {
        r matches Err(CodesError::BatchSize(n)) && n == values.len()
    } else if values[0].len() != QUANTIZERS {
        r matches Err(CodesError::QuantizerCount(n)) && n == values[0].len()
    } else if !even_rows(values[0]) {
        r matches Err(e) && e is FrameCounts
    } else {
        &&& r matches Ok(codes)
        &&& codes.quantizers == QUANTIZERS
        &&& codes.frames == values[0][0].len()
        &&& codes.flat@ == flattened(values[0])
    }
}

/// The codes that nested arrays stand for.
pub fn codes_of(values: &Vec<Vec<Vec<i64>>>) -> (r: Result<Codes, CodesError>)
    ensures
        gives_codes(r, nested(values@)),
{
    let batch: usize = values.len();
    if batch != 1 {
        return Err(CodesError::BatchSize(batch));
    }
    let rows: &Vec<Vec<i64>> = &values[0];
    let ghost views = nested(values@)[0];
    assert(views == rows@.map_values(|row: Vec<i64>| row@));
    let quantizers: usize = rows.len();
    if quantizers != QUANTIZERS {
        return Err(CodesError::QuantizerCount(quantizers));
    }
    let frames: usize = rows[0].len();
    assert(views[0] == rows@[0]@);
    let mut flat: Vec<i64> = Vec::new();
    let mut i: usize = 0;
    assert(flat@ =~= flattened(views.take(0)));
    while i < rows.len()
        invariant
            i <= rows@.len(),
            views == rows@.map_values(|row: Vec<i64>| row@),
            values@.len() == 1,
            views == nested(values@)[0],
            rows@.len() == QUANTIZERS,
            frames == views[0].len(),
            forall|j: int| 0 <= j < i ==> (#[trigger] views[j]).len() == frames,
            flat@ == flattened(views.take(i as int)),
        decreases rows@.len() - i,
    {
        assert(views[i as int] == rows@[i as int]@);
        if rows[i].len() != frames {
            return Err(CodesError::FrameCounts);
        }
        flat.extend_from_slice(rows[i].as_slice());
        proof {
            assert(views.take(i + 1).drop_last() =~= views.take(i as int));
            assert(flat@ =~= flattened(views.take(i + 1)));
        }
        i += 1;
    }
    assert(views.take(views.len() as int) =~= views);
    Ok(Codes { flat, quantizers, frames })
}

/// The codes that JSON text holds.
pub fn load_codes(text: &str) -> (r: Result<Codes, CodesError>)
    ensures
        match json_arrays(text@) {
            None => r matches Err(e) && e is Json,
            Some(values) => gives_codes(r, values),
        },
{
    match parse_json(text) {
        Ok(values) => codes_of(&values),
        Err(e) => Err(CodesError::Json(e)),
    }
}

/// The code of quantizer `q` in frame `f` is found at `q` times the number of
/// frames, plus `f`.
pub proof fn codes_are_row_major(rows: Seq<Seq<i64>>, frames: nat, q: int, f: int)
    requires
        forall|i: int| 0 <= i < rows.len() ==> (#[trigger] rows[i]).len() == frames,
        0 <= q < rows.len(),
        0 <= f < frames,
    ensures
        flattened(rows).len() == rows.len() * frames,
        0 <= q * frames + f < rows.len() * frames,
        flattened(rows)[q * frames + f] == rows[q][f],
{
    lemma_flattened(rows, frames, q, f);
}

proof fn lemma_flattened_len(rows: Seq<Seq<i64>>, frames: nat)
    requires
        forall|i: int| 0 <= i < rows.len() ==> (#[trigger] rows[i]).len() == frames,
    ensures
        flattened(rows).len() == rows.len() * frames,
    decreases rows.len(),
{
    if rows.len() > 0 {
        let before = rows.drop_last();
        assert forall|i: int| 0 <= i < before.len() implies (#[trigger] before[i]).len()
            == frames by {
            assert(before[i] == rows[i]);
        }
        lemma_flattened_len(before, frames);
        assert(rows[rows.len() - 1].len() == frames);
        assert(rows.len() * frames == (rows.len() - 1) * frames + frames) by (nonlinear_arith);
    }
}

proof fn lemma_flattened(rows: Seq<Seq<i64>>, frames: nat, q: int, f: int)
    requires
        forall|i: int| 0 <= i < rows.len() ==> (#[trigger] rows[i]).len() == frames,
        0 <= q < rows.len(),
        0 <= f < frames,
    ensures
        flattened(rows).len() == rows.len() * frames,
        0 <= q * frames + f < rows.len() * frames,
        flattened(rows)[q * frames + f] == rows[q][f],
    decreases rows.len(),
{
    let n = rows.len();
    let before = rows.drop_last();
    lemma_flattened_len(rows, frames);
    assert forall|i: int| 0 <= i < before.len() implies (#[trigger] before[i]).len() == frames by {
        assert(before[i] == rows[i]);
    }
    lemma_flattened_len(before, frames);
    assert(0 <= q * frames + f < n * frames) by (nonlinear_arith)
        requires
            0 <= q < n,
            0 <= f < frames,
    ;
    if q < n - 1 {
        lemma_flattened(before, frames, q, f);
        assert(before[q] == rows[q]);
    }
}

/// Whether a trace of the vocoder is asked for at all.
pub fn check_outputs(trace_dir_given: bool, waveform_out_given: bool) -> (r: Result<(), String>)
    ensures
        r is Ok <==> trace_dir_given || waveform_out_given,
        r matches Err(message) ==> message@
            == "at least one of --trace-dir or --waveform-out is required"@,
{
    if trace_dir_given || waveform_out_given {
        Ok(())
    } else {
        Err("at least one of --trace-dir or --waveform-out is required".to_owned())
    }
}

/// Which arrays are codes: one batch of sixteen rows of one length. They are then laid
/// out row by row, and nothing is lost.
pub proof fn codes_are_one_batch_of_sixteen(
    r: Result<Codes, CodesError>,
    values: Seq<Seq<Seq<i64>>>,
    q: int,
    f: int,
)
    requires
        gives_codes(r, values),
    ensures
        r is Ok <==> values.len() == 1 && values[0].len() == 16 && forall|i: int|
            0 <= i < 16 ==> (#[trigger] values[0][i]).len() == values[0][0].len(),
        r matches Ok(codes) ==> {
            &&& codes.quantizers == 16
            &&& codes.frames == values[0][0].len()
            &&& codes.flat@.len() == 16 * codes.frames
            &&& 0 <= q < 16 && 0 <= f < codes.frames ==> codes.flat@[q * codes.frames + f]
                == values[0][q][f]
        },
        values.len() != 1 ==> (r matches Err(CodesError::BatchSize(n)) && n == values.len()),
        values.len() == 1 && values[0].len() != 16 ==> (r matches Err(
            CodesError::QuantizerCount(n),
        ) && n == values[0].len()),
{
    if r is Ok {
        let rows = values[0];
        let frames = rows[0].len();
        assert(even_rows(rows));
        lemma_flattened_len(rows, frames);
        if 0 <= q < 16 && 0 <= f < frames {
            codes_are_row_major(rows, frames, q, f);
        }
    }
}

/// Nested vectors are taken as they stand.
pub proof fn nesting_is_kept(values: Seq<Vec<Vec<i64>>>, a: int, b: int, c: int)
    requires
        0 <= a < values.len(),
        0 <= b < values[a]@.len(),
        0 <= c < values[a]@[b]@.len(),
    ensures
        nested(values).len() == values.len(),
        nested(values)[a].len() == values[a]@.len(),
        nested(values)[a][b].len() == values[a]@[b]@.len(),
        nested(values)[a][b][c] == values[a]@[b]@[c],
{
}

} // verus!
