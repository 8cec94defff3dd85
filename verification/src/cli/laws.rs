//! What is printed can be read back.

use super::{
    bytes_of, count_of, count_prefix, decimal, digits_of, error_text, fixed_text, json_byte,
    json_bytes, json_read, json_string, last_digits, lemma_count_none, lemma_digits_read_back,
    lemma_json_front, lemma_json_read_back, lemma_ten_to, no_choice, number_of, parsed,
    points_text, reason_of, solution_text, ten_to, Choice, Decision,
};
use crate::ieee::double::{lemma_units_range, units, SIGN};
use crate::Error;
use vstd::prelude::*;

verus! {

/// The integer that a text stands for.
pub open spec fn integer_in(t: Seq<u8>) -> int {
    if t.len() > 0 && t[0] == 0x2D {
        -number_of(t.skip(1))
    } else {
        number_of(t)
    }
}

/// A text that is an integer: digits, perhaps behind a minus sign.
pub open spec fn is_integer(t: Seq<u8>) -> bool {
    &&& t.len() >= 1
    &&& t[0] == 0x2D ==> t.len() >= 2
    &&& forall|i: int|
        0 <= i < t.len() ==> 48 <= #[trigger] t[i] <= 57 || i == 0 && t[i] == 0x2D
}

/// Printed integers read back as they were.
pub proof fn lemma_integer_read_back(v: int)
    ensures
        integer_in(decimal(v)) == v,
        is_integer(decimal(v)),
{
    let t = decimal(v);
    if v < 0 {
        let d = digits_of((-v) as nat);
        lemma_digits_read_back((-v) as nat);
        assert(t.skip(1) =~= d);
        assert forall|i: int| 0 <= i < t.len() implies 48 <= #[trigger] t[i] <= 57 || i == 0 && t[i]
            == 0x2D by {
            if i > 0 {
                assert(t[i] == d[i - 1]);
            }
        }
    } else {
        lemma_digits_read_back(v as nat);
        assert(48 <= t[0] <= 57);
    }
}

/// Where the quote is that closes a JSON string, from `i` on inside it.
pub open spec fn closing_quote(t: Seq<u8>, i: int) -> int
    decreases t.len() + 1 - i,
{
    if i >= t.len() || t[i] == 0x22 {
        i
    } else if t[i] == 0x5C {
        closing_quote(t, i + 2)
    } else {
        closing_quote(t, i + 1)
    }
}

proof fn lemma_closing_quote(a: Seq<u8>, s: Seq<u8>, z: Seq<u8>)
    requires
        z.len() > 0,
        z[0] == 0x22,
    ensures
        closing_quote(a + json_bytes(s) + z, a.len() as int) == a.len() + json_bytes(s).len(),
    decreases s.len(),
{
    let all = a + json_bytes(s) + z;
    let n = a.len() as int;
    if s.len() == 0 {
        assert(all[n] == 0x22);
    } else {
        let (c, rest) = (s[0], s.skip(1));
        assert(s =~= seq![c] + rest);
        lemma_json_front(c, rest);
        let b = json_byte(c);
        lemma_closing_quote(a + b, rest, z);
        assert(a + b + json_bytes(rest) + z =~= all);
        if c == 0x22 || c == 0x5C {
            assert(all[n] == 0x5C);
        } else if c < 0x20 {
            assert(all[n] == 0x5C);
            assert(all[n + 2] == 0x30 && all[n + 3] == 0x30);
            assert(all[n + 4] == b[4] && all[n + 5] == b[5]);
            reveal_with_fuel(closing_quote, 6);
        } else {
            assert(all[n] == c);
        }
    }
}

/// The name in a JSON line: what the string behind `{"file": ` reads back to.
pub open spec fn file_in(t: Seq<u8>) -> Seq<u8> {
    let from = bytes_of("{\"file\": ").len() as int + 1;
    json_read(t.subrange(from, closing_quote(t, from)))
}

proof fn lemma_file_in(name: Seq<u8>, z: Seq<u8>)
    ensures
        ({
            let t = bytes_of("{\"file\": ") + json_string(name) + z;
            &&& file_in(t) == name
            &&& t.take(bytes_of("{\"file\": ").len() as int) == bytes_of("{\"file\": ")
            &&& t[bytes_of("{\"file\": ").len() as int] == 0x22
        }),
{
    let a = bytes_of("{\"file\": ");
    let t = a + json_string(name) + z;
    let q = seq![0x22u8] + z;
    assert(t =~= a + seq![0x22u8] + json_bytes(name) + q);
    lemma_closing_quote(a + seq![0x22u8], name, q);
    lemma_json_read_back(name);
    let from = a.len() as int + 1;
    assert(t.subrange(from, closing_quote(t, from)) =~= json_bytes(name));
    assert(t.take(a.len() as int) =~= a);
}

/// With JSON, a solved image's line is an object with the members file, points and margin, for
/// one image as for several: the first reads back to the name that was given, the second to
/// the points in their order, `x` before `y`. The margin has six decimals.
pub proof fn lemma_json_line(name: Seq<u8>, points: [[i32; 2]; 4], margin: u64, prefix: bool) -> (n:
    Seq<Seq<u8>>)
    ensures
        ({
            let t = solution_text(name, points, margin, true, prefix);
            &&& file_in(t) == name
            &&& n.len() == 8
            &&& forall|k: int|
                0 <= k < 8 ==> is_integer(#[trigger] n[k]) && integer_in(n[k])
                    == points[k / 2][k % 2]
            &&& t == bytes_of("{\"file\": ") + json_string(name) + bytes_of(", \"points\": [") + (
            bytes_of("[") + n[0] + bytes_of(", ") + n[1] + bytes_of("]") + bytes_of(", ")
                + bytes_of("[") + n[2] + bytes_of(", ") + n[3] + bytes_of("]") + bytes_of(", ")
                + bytes_of("[") + n[4] + bytes_of(", ") + n[5] + bytes_of("]") + bytes_of(", ")
                + bytes_of("[") + n[6] + bytes_of(", ") + n[7] + bytes_of("]")) + bytes_of(
                "], \"margin\": ",
            ) + fixed_text(margin, 6) + bytes_of("}\n")
        }),
{
    let (s, o, c) = (bytes_of(", "), bytes_of("["), bytes_of("]"));
    let n = Seq::new(8, |k: int| decimal(points[k / 2][k % 2] as int));
    assert forall|k: int| 0 <= k < 8 implies is_integer(#[trigger] n[k]) && integer_in(n[k])
        == points[k / 2][k % 2] by {
        lemma_integer_read_back(points[k / 2][k % 2] as int);
    }
    assert(n[0] == decimal(points[0][0] as int) && n[1] == decimal(points[0][1] as int));
    assert(n[2] == decimal(points[1][0] as int) && n[3] == decimal(points[1][1] as int));
    assert(n[4] == decimal(points[2][0] as int) && n[5] == decimal(points[2][1] as int));
    assert(n[6] == decimal(points[3][0] as int) && n[7] == decimal(points[3][1] as int));
    assert(points_text(points, s, o, s, c, 0) =~= Seq::<u8>::empty());
    assert(points_text(points, s, o, s, c, 1) =~= o + n[0] + s + n[1] + c);
    assert(points_text(points, s, o, s, c, 2) == points_text(points, s, o, s, c, 1) + s + o + n[2]
        + s + n[3] + c);
    assert(points_text(points, s, o, s, c, 3) == points_text(points, s, o, s, c, 2) + s + o + n[4]
        + s + n[5] + c);
    let p = points_text(points, s, o, s, c, 4);
    assert(p == points_text(points, s, o, s, c, 3) + s + o + n[6] + s + n[7] + c);
    let (a, b, m, f, z) = (
        bytes_of("{\"file\": ") + json_string(name),
        bytes_of(", \"points\": ["),
        bytes_of("], \"margin\": "),
        fixed_text(margin, 6),
        bytes_of("}\n"),
    );
    let t = solution_text(name, points, margin, true, prefix);
    assert(t == a + b + p + m + f + z);
    assert(t =~= a + (b + p + m + f + z));
    lemma_file_in(name, b + p + m + f + z);
    n
}

/// With JSON, a line is the same for one image as for several.
pub proof fn lemma_json_line_has_no_prefix(
    name: Seq<u8>,
    points: [[i32; 2]; 4],
    margin: u64,
    prefix: bool,
)
    ensures
        solution_text(name, points, margin, true, prefix) == solution_text(
            name,
            points,
            margin,
            true,
            !prefix,
        ),
{
}

/// Without JSON, the points are printed in their order, `x-y` each, and behind them the margin
/// with six decimals. The name stands before that exactly if it is asked for.
pub proof fn lemma_plain_line(name: Seq<u8>, points: [[i32; 2]; 4], margin: u64) -> (n: Seq<
    Seq<u8>,
>)
    ensures
        ({
            let t = solution_text(name, points, margin, false, false);
            &&& n.len() == 8
            &&& forall|k: int|
                0 <= k < 8 ==> is_integer(#[trigger] n[k]) && integer_in(n[k])
                    == points[k / 2][k % 2]
            &&& t == (n[0] + bytes_of("-") + n[1] + bytes_of(",") + n[2] + bytes_of("-") + n[3]
                + bytes_of(",") + n[4] + bytes_of("-") + n[5] + bytes_of(",") + n[6] + bytes_of("-")
                + n[7]) + bytes_of(" ") + fixed_text(margin, 6) + bytes_of("\n")
            &&& solution_text(name, points, margin, false, true) == name + bytes_of(" ") + t
        }),
{
    let none = Seq::<u8>::empty();
    let (s, m) = (bytes_of(","), bytes_of("-"));
    let n = Seq::new(8, |k: int| decimal(points[k / 2][k % 2] as int));
    assert forall|k: int| 0 <= k < 8 implies is_integer(#[trigger] n[k]) && integer_in(n[k])
        == points[k / 2][k % 2] by {
        lemma_integer_read_back(points[k / 2][k % 2] as int);
    }
    assert(n[0] == decimal(points[0][0] as int) && n[1] == decimal(points[0][1] as int));
    assert(n[2] == decimal(points[1][0] as int) && n[3] == decimal(points[1][1] as int));
    assert(n[4] == decimal(points[2][0] as int) && n[5] == decimal(points[2][1] as int));
    assert(n[6] == decimal(points[3][0] as int) && n[7] == decimal(points[3][1] as int));
    let p1 = points_text(points, s, none, m, none, 1);
    let p2 = points_text(points, s, none, m, none, 2);
    let p3 = points_text(points, s, none, m, none, 3);
    let p = points_text(points, s, none, m, none, 4);
    assert(points_text(points, s, none, m, none, 0) =~= none);
    assert(p1 =~= n[0] + m + n[1]);
    assert(p2 =~= p1 + s + n[2] + m + n[3]);
    assert(p3 =~= p2 + s + n[4] + m + n[5]);
    assert(p =~= p3 + s + n[6] + m + n[7]);
    let t = solution_text(name, points, margin, false, false);
    assert(none + p =~= p);
    assert(t == p + bytes_of(" ") + fixed_text(margin, 6) + bytes_of("\n"));
    assert(solution_text(name, points, margin, false, true) =~= name + bytes_of(" ") + t);
    n
}

/// An error's line of JSON is an object with the members file and error: the first reads back
/// to the name that was given, the second is what the error means.
pub proof fn lemma_error_line(name: Seq<u8>, e: Error)
    ensures
        file_in(error_text(name, e)) == name,
        error_text(name, e) == bytes_of("{\"file\": ") + json_string(name) + bytes_of(
            ", \"error\": \"",
        ) + reason_of(e) + bytes_of("\"}\n"),
{
    let z = bytes_of(", \"error\": \"") + reason_of(e) + bytes_of("\"}\n");
    assert(error_text(name, e) =~= bytes_of("{\"file\": ") + json_string(name) + z);
    lemma_file_in(name, z);
}

proof fn lemma_last_digits(n: nat, k: nat)
    ensures
        last_digits(n, k).len() == k,
        number_of(last_digits(n, k)) == n as int % ten_to(k),
        0 < ten_to(k),
        forall|i: int| 0 <= i < k ==> 48 <= #[trigger] last_digits(n, k)[i] <= 57,
    decreases k,
{
    let t = last_digits(n, k);
    if k > 0 {
        lemma_last_digits(n / 10, (k - 1) as nat);
        assert(t.drop_last() =~= last_digits(n / 10, (k - 1) as nat));
        let p = ten_to((k - 1) as nat);
        vstd::arithmetic::div_mod::lemma_breakdown(n as int, 10, p);
        assert(10 * p == ten_to(k));
        assert(t.last() == 48 + n % 10);
    } else {
        assert(n as int % 1 == 0);
    }
}

/// A printed number has its decimals behind a point, and at least one digit before it. Read
/// without the point, it is the number in units of the last decimal.
pub proof fn lemma_fixed_read_back(v: u64, digits: nat)
    requires
        1 <= digits <= 19,
    ensures
        ({
            let t = fixed_text(v, digits);
            let (whole, decimals) = (t.take(t.len() - digits - 1), t.skip(t.len() - digits));
            &&& t.len() >= digits + 2
            &&& t[t.len() - digits - 1] == 0x2E
            &&& is_integer(whole)
            &&& forall|i: int| 0 <= i < digits ==> 48 <= #[trigger] decimals[i] <= 57
            &&& whole[0] == 0x2D <==> v >= SIGN && units(v, ten_to(digits)) != 0
            &&& (if whole[0] == 0x2D {
                -integer_in(whole)
            } else {
                integer_in(whole)
            }) * ten_to(digits) + number_of(decimals) == units(v, ten_to(digits))
        }),
{
    let scale = ten_to(digits);
    let u = units(v, scale);
    lemma_ten_to(digits);
    assert(scale >= 10);
    lemma_last_digits(u as nat, digits);
    let w = u / scale;
    assert(0 <= u <= u64::MAX) by {
        lemma_units_range(v, scale);
    }
    assert(0 <= w <= i64::MAX) by (nonlinear_arith)
        requires
            w == u / scale,
            0 <= u <= 0xFFFF_FFFF_FFFF_FFFF,
            scale >= 10,
    ;
    lemma_digits_read_back(w as nat);
    let t = fixed_text(v, digits);
    let d = digits_of(w as nat);
    let sign = if v >= SIGN && u != 0 {
        seq![45u8]
    } else {
        Seq::empty()
    };
    let (whole, decimals) = (t.take(t.len() - digits - 1), t.skip(t.len() - digits));
    assert(t =~= sign + d + seq![46u8] + last_digits(u as nat, digits));
    assert(decimals =~= last_digits(u as nat, digits));
    assert(whole =~= sign + d);
    if v >= SIGN && u != 0 {
        assert(whole.skip(1) =~= d);
        assert(whole[0] == 45);
    } else {
        assert(whole =~= d);
    }
    assert forall|i: int| 0 <= i < whole.len() implies 48 <= #[trigger] whole[i] <= 57 || i == 0
        && whole[i] == 0x2D by {
        if i >= sign.len() {
            assert(whole[i] == d[i - sign.len()]);
        }
    }
    vstd::arithmetic::div_mod::lemma_fundamental_div_mod(u, scale);
    assert(w * scale == scale * w) by (nonlinear_arith);
}

/// An argument that is an option: a minus sign and something behind it.
pub open spec fn is_option(a: Seq<u8>) -> bool {
    a.len() > 1 && a[0] == 0x2D
}

/// An option that has a value behind it.
pub open spec fn takes_value(a: Seq<u8>) -> bool {
    a == bytes_of("-m") || a == bytes_of("-b")
}

/// Argument `i` is the value of the option before it.
pub open spec fn is_value(args: Seq<Seq<u8>>, i: int) -> bool
    decreases i,
{
    i > 1 && takes_value(args[i - 1]) && !is_value(args, i - 1)
}

/// Option `w` is among the arguments from `i` on.
pub open spec fn has_option(args: Seq<Seq<u8>>, w: Seq<u8>, i: int) -> bool {
    exists|j: int| i <= j < args.len() && !is_value(args, j) && #[trigger] args[j] == w
}

/// The arguments from `i` on that are neither options nor values of options.
pub open spec fn files_from(args: Seq<Seq<u8>>, i: int) -> Seq<int>
    decreases args.len() - i,
{
    if i >= args.len() {
        Seq::empty()
    } else if !is_value(args, i) && !is_option(args[i]) {
        seq![i] + files_from(args, i + 1)
    } else {
        files_from(args, i + 1)
    }
}

/// The value of the last option `w` from `i` on.
pub open spec fn last_value(args: Seq<Seq<u8>>, w: Seq<u8>, i: int) -> Option<int>
    decreases args.len() - i,
{
    if i >= args.len() {
        None
    } else if last_value(args, w, i + 1) is Some {
        last_value(args, w, i + 1)
    } else if !is_value(args, i) && args[i] == w && i + 1 < args.len() {
        Some(i + 1)
    } else {
        None
    }
}

/// The arguments from `i` on up to which reading goes: the first that asks for help, that is an
/// option which is not known or lacks its value, or that has a count of nothing.
pub open spec fn stops_at(args: Seq<Seq<u8>>, i: int) -> bool {
    let a = args[i];
    !is_value(args, i) && is_option(a) && {
        ||| a == bytes_of("-h") || a == bytes_of("--help")
        ||| a != bytes_of("-j") && a != bytes_of("-g") && !takes_value(a)
        ||| takes_value(a) && i + 1 >= args.len()
        ||| a == bytes_of("-b") && count_of(args[i + 1]) == 0
    }
}

/// The options are told apart, and are options.
proof fn lemma_options()
    ensures
        ({
            let (j, g, h, l, m, b) = (
                bytes_of("-j"),
                bytes_of("-g"),
                bytes_of("-h"),
                bytes_of("--help"),
                bytes_of("-m"),
                bytes_of("-b"),
            );
            &&& j != g && j != h && j != l && j != m && j != b
            &&& g != h && g != l && g != m && g != b
            &&& h != m && h != b && l != m && l != b && m != b
            &&& is_option(j) && is_option(g) && is_option(h) && is_option(l) && is_option(m)
                && is_option(b)
        }),
{
    reveal_strlit("-j");
    reveal_strlit("-g");
    reveal_strlit("-h");
    reveal_strlit("--help");
    reveal_strlit("-m");
    reveal_strlit("-b");
    lemma_option("-j");
    lemma_option("-g");
    lemma_option("-h");
    lemma_option("--help");
    lemma_option("-m");
    lemma_option("-b");
    assert("-j"@[1] == 'j' && "-g"@[1] == 'g' && "-h"@[1] == 'h' && "--help"@[1] == '-' && "-m"@[1]
        == 'm' && "-b"@[1] == 'b');
}

proof fn lemma_option(w: &str)
    requires
        w@.len() > 1,
        w@[0] == '-',
        vstd::utf8::is_ascii_chars(w@),
    ensures
        is_option(bytes_of(w)),
        vstd::utf8::decode_utf8(bytes_of(w)) == w@,
{
    vstd::utf8::encode_utf8_decode_utf8(w@);
    vstd::utf8::is_ascii_chars_encode_utf8(w@);
}

/// What reading from `i` on comes to.
proof fn lemma_parsed_from(args: Seq<Seq<u8>>, i: int, o: Choice)
    requires
        1 <= i,
        !is_value(args, i) || i >= args.len(),
    ensures
        match parsed(args, i, o) {
            Decision::Run(r) => {
                &&& forall|k: int| i <= k < args.len() ==> !#[trigger] stops_at(args, k)
                &&& r.json == (o.json || has_option(args, bytes_of("-j"), i))
                &&& r.generic == (o.generic || has_option(args, bytes_of("-g"), i))
                &&& r.files == o.files + files_from(args, i)
                &&& r.files.len() > 0
                &&& r.model == match last_value(args, bytes_of("-m"), i) {
                    Some(k) => Some(k),
                    None => o.model,
                }
                &&& r.rounds == match last_value(args, bytes_of("-b"), i) {
                    Some(k) => count_of(args[k]),
                    None => o.rounds,
                }
            },
            Decision::NoFiles => {
                &&& forall|k: int| i <= k < args.len() ==> !#[trigger] stops_at(args, k)
                &&& (o.files + files_from(args, i)).len() == 0
            },
            d => exists|k: int|
                i <= k < args.len() && #[trigger] stops_at(args, k) && (forall|l: int|
                    i <= l < k ==> !#[trigger] stops_at(args, l)) && d == (if args[k] == bytes_of(
                    "-h",
                ) || args[k] == bytes_of("--help") {
                    Decision::Help
                } else if args[k] == bytes_of("-b") && k + 1 < args.len() {
                    Decision::BadCount
                } else {
                    Decision::Unknown(k)
                }),
        },
    decreases args.len() - i,
{
    lemma_options();
    let n = args.len() as int;
    let (jj, gg, mm, bb) = (bytes_of("-j"), bytes_of("-g"), bytes_of("-m"), bytes_of("-b"));
    if i >= n {
        assert(o.files + files_from(args, i) =~= o.files);
    } else {
        let a = args[i];
        if a == jj {
            lemma_parsed_from(args, i + 1, Choice { json: true, ..o });
        } else if a == gg {
            lemma_parsed_from(args, i + 1, Choice { generic: true, ..o });
        } else if a == bytes_of("-h") || a == bytes_of("--help") {
            assert(stops_at(args, i));
        } else if a == mm && i + 1 < n {
            lemma_value_skipped(args, i);
            lemma_parsed_from(args, i + 2, Choice { model: Some(i + 1), ..o });
        } else if a == bb && i + 1 < n {
            if count_of(args[i + 1]) == 0 {
                assert(stops_at(args, i));
            } else {
                lemma_value_skipped(args, i);
                lemma_parsed_from(
                    args,
                    i + 2,
                    Choice { rounds: count_of(args[i + 1]), ..o },
                );
            }
        } else if is_option(a) {
            assert(stops_at(args, i));
        } else {
            lemma_parsed_from(args, i + 1, Choice { files: o.files.push(i), ..o });
            assert(o.files.push(i) + files_from(args, i + 1) =~= o.files + files_from(args, i));
        }
        if !stops_at(args, i) {
            let two = takes_value(a);
            lemma_has_step(args, jj, i, two);
            lemma_has_step(args, gg, i, two);
            let next = if two {
                i + 2
            } else {
                i + 1
            };
            assert forall|k: int| i <= k < next implies !#[trigger] stops_at(args, k) by {
                if k == i + 1 {
                    assert(is_value(args, i + 1));
                }
            }
        }
    }
}

proof fn lemma_value_skipped(args: Seq<Seq<u8>>, i: int)
    requires
        1 <= i,
        i + 1 < args.len(),
        !is_value(args, i),
        takes_value(args[i]),
    ensures
        is_value(args, i + 1),
        !is_value(args, i + 2),
        files_from(args, i + 1) == files_from(args, i + 2),
        forall|w: Seq<u8>| #[trigger]
            last_value(args, w, i + 1) == last_value(args, w, i + 2),
{
    reveal_with_fuel(is_value, 2);
}

proof fn lemma_has_step(args: Seq<Seq<u8>>, w: Seq<u8>, i: int, two: bool)
    requires
        1 <= i < args.len(),
        !is_value(args, i),
        two == takes_value(args[i]),
        two ==> i + 1 < args.len(),
    ensures
        has_option(args, w, i) == (args[i] == w || has_option(
            args,
            w,
            if two {
                i + 2
            } else {
                i + 1
            },
        )),
{
    let next = if two {
        i + 2
    } else {
        i + 1
    };
    if two {
        assert(is_value(args, i + 1));
    }
    if has_option(args, w, i) {
        let j = choose|j: int| i <= j < args.len() && !is_value(args, j) && #[trigger] args[j] == w;
        assert(j == i || j >= next);
    }
    if has_option(args, w, next) {
        let j = choose|j: int|
            next <= j < args.len() && !is_value(args, j) && #[trigger] args[j] == w;
        assert(args[j] == w);
    }
}

/// What the arguments ask for, as a whole: JSON and the portable kernel if their options are
/// there, wherever they are; the last model and the last count; and as files, in their order,
/// all arguments that are neither options nor values of options, of which there has to be one.
/// The first argument that asks for help or is not understood decides, if there is one.
pub proof fn lemma_arguments(args: Seq<Seq<u8>>)
    ensures
        match parsed(args, 1, no_choice()) {
            Decision::Run(r) => {
                &&& forall|k: int| 1 <= k < args.len() ==> !#[trigger] stops_at(args, k)
                &&& r.json == has_option(args, bytes_of("-j"), 1)
                &&& r.generic == has_option(args, bytes_of("-g"), 1)
                &&& r.files == files_from(args, 1)
                &&& r.files.len() > 0
                &&& r.model == last_value(args, bytes_of("-m"), 1)
                &&& r.rounds == match last_value(args, bytes_of("-b"), 1) {
                    Some(k) => count_of(args[k]),
                    None => 0,
                }
            },
            Decision::NoFiles => {
                &&& forall|k: int| 1 <= k < args.len() ==> !#[trigger] stops_at(args, k)
                &&& files_from(args, 1).len() == 0
            },
            d => exists|k: int|
                1 <= k < args.len() && #[trigger] stops_at(args, k) && (forall|l: int|
                    1 <= l < k ==> !#[trigger] stops_at(args, l)) && d == (if args[k] == bytes_of(
                    "-h",
                ) || args[k] == bytes_of("--help") {
                    Decision::Help
                } else if args[k] == bytes_of("-b") && k + 1 < args.len() {
                    Decision::BadCount
                } else {
                    Decision::Unknown(k)
                }),
        },
{
    lemma_parsed_from(args, 1, no_choice());
    assert(no_choice().files + files_from(args, 1) =~= files_from(args, 1));
}

/// A count is the number that its digits stand for, or the largest there is if that is less;
/// an argument that holds anything else, or nothing, counts as zero.
pub proof fn lemma_count_is_the_number(s: Seq<u8>)
    ensures
        (forall|i: int| 0 <= i < s.len() ==> 48 <= #[trigger] s[i] <= 57) ==> count_of(s) == if number_of(
            s,
        ) <= usize::MAX {
            number_of(s)
        } else {
            usize::MAX as int
        },
        !(forall|i: int| 0 <= i < s.len() ==> 48 <= #[trigger] s[i] <= 57) ==> count_of(s) == 0,
{
    if forall|i: int| 0 <= i < s.len() ==> 48 <= #[trigger] s[i] <= 57 {
        lemma_saturates(s, s.len() as int);
        assert(s.take(s.len() as int) =~= s);
    } else {
        let i = choose|i: int| 0 <= i < s.len() && !(48 <= #[trigger] s[i] <= 57);
        assert(count_prefix(s, i + 1) is None);
        lemma_count_none(s, i + 1, s.len() as int);
    }
}

proof fn lemma_saturates(s: Seq<u8>, n: int)
    requires
        0 <= n <= s.len(),
        forall|i: int| 0 <= i < s.len() ==> 48 <= #[trigger] s[i] <= 57,
    ensures
        0 <= number_of(s.take(n)),
        count_prefix(s, n) == Some(
            if number_of(s.take(n)) <= usize::MAX {
                number_of(s.take(n))
            } else {
                usize::MAX as int
            },
        ),
    decreases n,
{
    if n > 0 {
        lemma_saturates(s, n - 1);
        assert(s.take(n).drop_last() =~= s.take(n - 1));
        assert(48 <= s[n - 1] <= 57);
    } else {
        assert(s.take(0) =~= Seq::<u8>::empty());
    }
}

} // verus!
