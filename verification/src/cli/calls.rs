//! What one call prints, decides or answers.

use super::laws::{
    file_in, files_from, has_option, integer_in, is_integer, last_value, lemma_arguments,
    lemma_count_is_the_number, lemma_error_line, lemma_fixed_read_back, lemma_integer_read_back,
    lemma_json_line, lemma_plain_line, stops_at,
};
use super::{
    args_of, bad_model, bytes_of, cannot_read, complaint, count, count_of, decimal, fixed_text,
    json_bytes, json_read, json_string, lemma_json_read_back, number_of,
    print_benchmark, print_error, print_solution, reason, report, start, ten_to, Message,
    Options, Out, USAGE,
};
use crate::ieee::double::{units, SIGN};
use crate::Error;
use vstd::prelude::*;

verus! {

/// A call that prints an integer appends a text that reads back to it, and nothing else.
pub proof fn lemma_integer_call(out: &mut Out, v: i64) -> (t: Seq<u8>)
    requires
        call_ensures(Out::integer, (out, v), ()),
    ensures
        final(out)@ == old(out)@ + t,
        is_integer(t),
        integer_in(t) == v,
{
    lemma_integer_read_back(v as int);
    decimal(v as int)
}

/// A call that prints a number with decimals appends as many as it is asked for, behind a
/// point. Read back, whole part and decimals are the number of units that it has, and it has
/// a minus sign exactly if it is negative and not zero units.
pub proof fn lemma_fixed_call(out: &mut Out, v: u64, digits: u32) -> (t: Seq<u8>)
    requires
        1 <= digits <= 19,
        call_ensures(Out::fixed, (out, v, digits), ()),
    ensures
        final(out)@ == old(out)@ + t,
        t.len() >= digits + 2,
        t[t.len() - digits - 1] == 0x2E,
        ({
            let (whole, decimals) = (t.take(t.len() - digits - 1), t.skip(t.len() - digits));
            &&& is_integer(whole)
            &&& forall|i: int| 0 <= i < digits ==> 48 <= #[trigger] decimals[i] <= 57
            &&& whole[0] == 0x2D <==> v >= SIGN && units(v, ten_to(digits as nat)) != 0
            &&& (if whole[0] == 0x2D {
                -integer_in(whole)
            } else {
                integer_in(whole)
            }) * ten_to(digits as nat) + number_of(decimals) == units(v, ten_to(digits as nat))
        }),
{
    lemma_fixed_read_back(v, digits as nat);
    fixed_text(v, digits as nat)
}

/// A call that prints a JSON string appends two quotes and between them what reads back to
/// the bytes. There is no control and no bare quote in between.
pub proof fn lemma_json_str_call(out: &mut Out, s: &[u8]) -> (t: Seq<u8>)
    requires
        call_ensures(Out::json_str, (out, s), ()),
    ensures
        final(out)@ == old(out)@ + seq![0x22u8] + t + seq![0x22u8],
        json_read(t) == s@,
        forall|i: int| 0 <= i < t.len() ==> #[trigger] t[i] >= 0x20,
        forall|i: int| 0 <= i < t.len() && #[trigger] t[i] == 0x22 ==> i > 0 && t[i - 1] == 0x5C,
{
    lemma_json_read_back(s@);
    lemma_json_plain(s@);
    let t = json_bytes(s@);
    assert(final(out)@ =~= old(out)@ + seq![0x22u8] + t + seq![0x22u8]);
    t
}

proof fn lemma_json_plain(s: Seq<u8>)
    ensures
        forall|i: int| 0 <= i < json_bytes(s).len() ==> #[trigger] json_bytes(s)[i] >= 0x20,
        forall|i: int|
            0 <= i < json_bytes(s).len() && #[trigger] json_bytes(s)[i] == 0x22 ==> i > 0
                && json_bytes(s)[i - 1] == 0x5C,
    decreases s.len(),
{
    if s.len() > 0 {
        lemma_json_plain(s.drop_last());
        let (a, b) = (json_bytes(s.drop_last()), super::json_byte(s.last()));
        let t = json_bytes(s);
        assert(t == a + b);
        assert forall|i: int| 0 <= i < t.len() implies #[trigger] t[i] >= 0x20 by {
            if i < a.len() {
                assert(t[i] == a[i]);
            } else {
                assert(t[i] == b[i - a.len()]);
            }
        }
        assert forall|i: int| 0 <= i < t.len() && #[trigger] t[i] == 0x22 implies i > 0 && t[i - 1]
            == 0x5C by {
            if i < a.len() {
                assert(t[i] == a[i]);
                assert(t[i - 1] == a[i - 1]);
            } else {
                assert(t[i] == b[i - a.len()]);
                assert(t[i - 1] == b[0]);
            }
        }
    }
}

/// A call that prints a solution as JSON appends one line: an object with the members file,
/// points and margin, whether or not names are put before lines. The file reads back to the
/// name and the points to the points, in their order, `x` before `y`.
pub proof fn lemma_json_solution_call(
    out: &mut Out,
    name: &[u8],
    points: [[i32; 2]; 4],
    margin: u64,
    prefix: bool,
) -> (r: (Seq<u8>, Seq<Seq<u8>>))
    requires
        call_ensures(print_solution, (out, name, &points, margin, true, prefix), ()),
    ensures
        final(out)@ == old(out)@ + r.0,
        file_in(r.0) == name@,
        r.1.len() == 8,
        forall|k: int|
            0 <= k < 8 ==> is_integer(#[trigger] r.1[k]) && integer_in(r.1[k]) == points[k / 2][k
                % 2],
        r.0 == bytes_of("{\"file\": ") + json_string(name@) + bytes_of(", \"points\": [") + (
        bytes_of("[") + r.1[0] + bytes_of(", ") + r.1[1] + bytes_of("]") + bytes_of(", ")
            + bytes_of("[") + r.1[2] + bytes_of(", ") + r.1[3] + bytes_of("]") + bytes_of(", ")
            + bytes_of("[") + r.1[4] + bytes_of(", ") + r.1[5] + bytes_of("]") + bytes_of(", ")
            + bytes_of("[") + r.1[6] + bytes_of(", ") + r.1[7] + bytes_of("]")) + bytes_of(
            "], \"margin\": ",
        ) + fixed_text(margin, 6) + bytes_of("}\n"),
{
    let n = lemma_json_line(name@, points, margin, prefix);
    (super::solution_text(name@, points, margin, true, prefix), n)
}

/// A call that prints a solution as text appends the name and a space where names are put
/// before lines, then the points in their order, `x-y` each, and the margin.
pub proof fn lemma_plain_solution_call(
    out: &mut Out,
    name: &[u8],
    points: [[i32; 2]; 4],
    margin: u64,
    prefix: bool,
) -> (n: Seq<Seq<u8>>)
    requires
        call_ensures(print_solution, (out, name, &points, margin, false, prefix), ()),
    ensures
        n.len() == 8,
        forall|k: int|
            0 <= k < 8 ==> is_integer(#[trigger] n[k]) && integer_in(n[k]) == points[k / 2][k % 2],
        ({
            let line = (n[0] + bytes_of("-") + n[1] + bytes_of(",") + n[2] + bytes_of("-") + n[3]
                + bytes_of(",") + n[4] + bytes_of("-") + n[5] + bytes_of(",") + n[6] + bytes_of("-")
                + n[7]) + bytes_of(" ") + fixed_text(margin, 6) + bytes_of("\n");
            final(out)@ == old(out)@ + if prefix {
                name@ + bytes_of(" ") + line
            } else {
                line
            }
        }),
{
    lemma_plain_line(name@, points, margin)
}

/// A call that prints an error appends one line: an object with the members file and error.
/// The file reads back to the name.
pub proof fn lemma_error_call(out: &mut Out, name: &[u8], e: Error, text: &[u8]) -> (t: Seq<u8>)
    requires
        call_ensures(print_error, (out, name, e), ()),
        call_ensures(reason, (e,), text),
    ensures
        final(out)@ == old(out)@ + t,
        file_in(t) == name@,
        t == bytes_of("{\"file\": ") + json_string(name@) + bytes_of(", \"error\": \"") + text@
            + bytes_of("\"}\n"),
{
    lemma_error_line(name@, e);
    super::error_text(name@, e)
}

/// The reasons, one for each error.
pub proof fn lemma_reasons(e: Error, text: &[u8])
    requires
        call_ensures(reason, (e,), text),
    ensures
        e == Error::Arg ==> text@ == bytes_of("bad argument"),
        e == Error::Jpeg ==> text@ == bytes_of("not a valid JPEG"),
        e == Error::Unsupported ==> text@ == bytes_of("unsupported JPEG variant"),
        e == Error::Size ==> text@ == bytes_of("not a 250x80 image"),
        e == Error::Model ==> text@ == bytes_of("bad model file"),
{
}

/// Complaints are lines that start with the program's name.
pub proof fn lemma_complaint_call(msg: &[u8], o: Out)
    requires
        call_ensures(complaint, (msg,), o),
    ensures
        o@ == bytes_of("ccm-cli: ") + msg@ + bytes_of("\n"),
{
}

/// A file that cannot be read is complained about by its name, on standard error alone.
pub proof fn lemma_cannot_read_call(name: &[u8], status: u8, m: Message)
    requires
        call_ensures(cannot_read, (name, status), m),
    ensures
        m.out@.len() == 0,
        m.err@ == bytes_of("ccm-cli: ") + (bytes_of("cannot read ") + name@) + bytes_of("\n"),
        m.status == status,
{
}

/// A bad model is complained about on standard error alone, and the status is 2.
pub proof fn lemma_bad_model_call(m: Message)
    requires
        call_ensures(bad_model, (), m),
    ensures
        m.out@.len() == 0,
        m.err@ == bytes_of("ccm-cli: ") + bytes_of("bad model file") + bytes_of("\n"),
        m.status == 2,
{
}

/// A solved image is reported with status 0 and a line on standard output, or with nothing in
/// a benchmark. The line is what printing the solution appends.
pub proof fn lemma_solved_report(
    name: &[u8],
    points: [[i32; 2]; 4],
    margin: u64,
    json: bool,
    prefix: bool,
    benchmark: bool,
    m: Message,
    out: &mut Out,
)
    requires
        call_ensures(
            report,
            (
                name,
                &Ok::<([[i32; 2]; 4], u64), Error>((points, margin)),
                json,
                prefix,
                benchmark,
            ),
            m,
        ),
        call_ensures(print_solution, (out, name, &points, margin, json, prefix), ()),
    ensures
        m.status == 0,
        m.err@.len() == 0,
        benchmark ==> m.out@.len() == 0,
        !benchmark ==> final(out)@ == old(out)@ + m.out@,
{
}

/// An image that is not solved is reported with status 1, in a benchmark too: with JSON as a
/// line on standard output, else as a complaint with its name and the reason.
pub proof fn lemma_failed_report(
    name: &[u8],
    e: Error,
    json: bool,
    prefix: bool,
    benchmark: bool,
    m: Message,
    text: &[u8],
    out: &mut Out,
)
    requires
        call_ensures(
            report,
            (name, &Err::<([[i32; 2]; 4], u64), Error>(e), json, prefix, benchmark),
            m,
        ),
        call_ensures(reason, (e,), text),
        call_ensures(print_error, (out, name, e), ()),
    ensures
        m.status == 1,
        json ==> m.err@.len() == 0 && final(out)@ == old(out)@ + m.out@,
        !json ==> m.out@.len() == 0 && m.err@ == bytes_of("ccm-cli: ") + (name@ + bytes_of(": ")
            + text@) + bytes_of("\n"),
{
}

/// The result of a benchmark: images, rounds, milliseconds with three decimals, kernel and
/// checksum with four decimals, in that order.
pub proof fn lemma_benchmark_call(
    out: &mut Out,
    images: usize,
    rounds: usize,
    millis: u64,
    kernel: &str,
    checksum: u64,
) -> (n: (Seq<u8>, Seq<u8>))
    requires
        images <= i64::MAX,
        rounds <= i64::MAX,
        call_ensures(print_benchmark, (out, images, rounds, millis, kernel, checksum), ()),
    ensures
        is_integer(n.0) && integer_in(n.0) == images,
        is_integer(n.1) && integer_in(n.1) == rounds,
        final(out)@ == old(out)@ + n.0 + bytes_of(" images x ") + n.1 + bytes_of(" rounds: ")
            + fixed_text(millis, 3) + bytes_of(" ms/captcha end-to-end, 1 thread, kernel ")
            + bytes_of(kernel) + bytes_of(" (checksum ") + fixed_text(checksum, 4) + bytes_of(
            ")\n",
        ),
{
    lemma_integer_read_back(images as int);
    lemma_integer_read_back(rounds as int);
    (decimal(images as int), decimal(rounds as int))
}

/// A count is the number that its digits stand for, at most the largest that can be counted
/// to, and 0 where there is anything but digits.
pub proof fn lemma_count_call(s: &[u8], r: usize)
    requires
        call_ensures(count, (s,), r),
    ensures
        (forall|i: int| 0 <= i < s@.len() ==> 48 <= #[trigger] s@[i] <= 57) ==> r == if number_of(
            s@,
        ) <= usize::MAX {
            number_of(s@)
        } else {
            usize::MAX as int
        },
        !(forall|i: int| 0 <= i < s@.len() ==> 48 <= #[trigger] s@[i] <= 57) ==> r == 0,
{
    lemma_count_is_the_number(s@);
}

/// Images are solved exactly if no argument asks for something else and there is a file. The
/// options are those that are given anywhere, and of values the last one.
pub proof fn lemma_start_runs(args: &Vec<Vec<u8>>, r: Result<Options, Message>)
    requires
        call_ensures(start, (args,), r),
    ensures
        ({
            let a = args_of(args@);
            &&& r is Ok <==> (forall|k: int| 1 <= k < a.len() ==> !#[trigger] stops_at(a, k))
                && files_from(a, 1).len() > 0
            &&& r matches Ok(o) ==> {
                &&& o.json == has_option(a, bytes_of("-j"), 1)
                &&& o.generic == has_option(a, bytes_of("-g"), 1)
                &&& o.files@.len() == files_from(a, 1).len()
                &&& forall|i: int|
                    0 <= i < o.files@.len() ==> #[trigger] o.files@[i] as int == files_from(a, 1)[i]
                &&& o.model is Some <==> last_value(a, bytes_of("-m"), 1) is Some
                &&& o.model matches Some(i) ==> last_value(a, bytes_of("-m"), 1) == Some(i as int)
                &&& o.rounds == match last_value(a, bytes_of("-b"), 1) {
                    Some(k) => count_of(a[k]),
                    None => 0,
                }
            }
        }),
{
    let a = args_of(args@);
    lemma_arguments(a);
    if let Ok(o) = r {
        assert(o@.files == files_from(a, 1));
        assert forall|i: int| 0 <= i < o.files@.len() implies #[trigger] o.files@[i] as int
            == files_from(a, 1)[i] by {
            assert(o@.files[i] == o.files@[i] as int);
        }
    }
}

/// Where nothing is run, help is printed to standard output with status 0 if it is asked for
/// before anything is wrong. All else is a complaint with status 2: about the first argument
/// that is wrong, or the usage where there is no file.
pub proof fn lemma_start_answers(args: &Vec<Vec<u8>>, m: Message)
    requires
        call_ensures(start, (args,), Err::<Options, Message>(m)),
    ensures
        ({
            let a = args_of(args@);
            ||| {
                &&& forall|k: int| 1 <= k < a.len() ==> !#[trigger] stops_at(a, k)
                &&& m.status == 2
                &&& m.out@.len() == 0
                &&& m.err@ == bytes_of("ccm-cli: ") + bytes_of(USAGE) + bytes_of("\n")
            }
            ||| exists|k: int|
                1 <= k < a.len() && #[trigger] stops_at(a, k) && (forall|l: int|
                    1 <= l < k ==> !#[trigger] stops_at(a, l)) && if a[k] == bytes_of("-h") || a[k]
                    == bytes_of("--help") {
                    m.status == 0 && m.err@.len() == 0 && m.out@ == bytes_of(USAGE)
                } else if a[k] == bytes_of("-b") && k + 1 < a.len() {
                    m.status == 2 && m.out@.len() == 0 && m.err@ == bytes_of("ccm-cli: ")
                        + bytes_of("-b needs a positive count") + bytes_of("\n")
                } else {
                    m.status == 2 && m.out@.len() == 0 && m.err@ == bytes_of("ccm-cli: ") + (
                    bytes_of("unknown option ") + a[k] + bytes_of("\n") + bytes_of(USAGE))
                        + bytes_of("\n")
                }
        }),
{
    lemma_arguments(args_of(args@));
}

} // verus!
