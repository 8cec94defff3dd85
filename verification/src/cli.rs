//! The command line: arguments, and the text that is printed.

pub mod calls;
pub mod laws;

use crate::ieee::double::{to_units, units, SIGN};
use crate::Error;
use vstd::prelude::*;
use vstd::utf8::encode_utf8;

verus! {

/// The bytes of a text.
pub open spec fn bytes_of(t: &str) -> Seq<u8> {
    encode_utf8(t@)
}

/// Buffered output with just the formatting this tool needs.
pub struct Out(pub Vec<u8>);

impl View for Out {
    type V = Seq<u8>;

    open spec fn view(&self) -> Seq<u8> {
        self.0@
    }
}

/// The decimal digits of a number.
pub open spec fn digits_of(n: nat) -> Seq<u8>
    decreases n,
{
    if n < 10 {
        seq![(48 + n) as u8]
    } else {
        digits_of(n / 10).push((48 + n % 10) as u8)
    }
}

/// An integer in decimal.
pub open spec fn decimal(v: int) -> Seq<u8> {
    if v < 0 {
        seq![45u8] + digits_of((-v) as nat)
    } else {
        digits_of(v as nat)
    }
}

/// A power of ten.
pub open spec fn ten_to(k: nat) -> int
    decreases k,
{
    if k == 0 {
        1
    } else {
        10 * ten_to((k - 1) as nat)
    }
}

/// Powers of ten of up to 19 digits behind the one.
pub proof fn lemma_ten_to(k: nat)
    requires
        k <= 19,
    ensures
        1 <= ten_to(k) <= 10000000000000000000,
        k == 19 ==> ten_to(k) == 10000000000000000000,
{
    reveal_with_fuel(ten_to, 20);
}

/// The last `k` digits of a number, with leading zeros.
pub open spec fn last_digits(n: nat, k: nat) -> Seq<u8>
    decreases k,
{
    if k == 0 {
        Seq::empty()
    } else {
        last_digits(n / 10, (k - 1) as nat).push((48 + n % 10) as u8)
    }
}

/// A 64-bit number, read as a signed one.
pub open spec fn as_signed(u: int) -> int {
    if u > i64::MAX {
        u - 0x1_0000_0000_0000_0000
    } else {
        u
    }
}

/// A double-precision number, given by its bit pattern, with `digits` decimals. Zero has no
/// sign. The whole part is a signed number: without decimals, one of 2^63 or more turns
/// negative.
pub open spec fn fixed_text(v: u64, digits: nat) -> Seq<u8> {
    let scale = ten_to(digits);
    let u = units(v, scale);
    (if v >= SIGN && u != 0 {
        seq![45u8]
    } else {
        Seq::empty()
    }) + decimal(as_signed(u / scale)) + seq![46u8] + last_digits(u as nat, digits)
}

/// A hexadecimal digit.
pub open spec fn hex_digit(n: int) -> u8 {
    (if n < 10 {
        48 + n
    } else {
        87 + n
    }) as u8
}

/// A byte inside a JSON string: quotes and backslashes are escaped, and so are controls.
pub open spec fn json_byte(c: u8) -> Seq<u8> {
    if c == 0x22 || c == 0x5C {
        seq![0x5Cu8, c]
    } else if c < 0x20 {
        seq![0x5Cu8, 0x75u8, 0x30u8, 0x30u8, hex_digit(c as int / 16), hex_digit(c as int % 16)]
    } else {
        seq![c]
    }
}

/// The inside of a JSON string.
pub open spec fn json_bytes(s: Seq<u8>) -> Seq<u8>
    decreases s.len(),
{
    if s.len() == 0 {
        Seq::empty()
    } else {
        json_bytes(s.drop_last()) + json_byte(s.last())
    }
}

/// A JSON string.
pub open spec fn json_string(s: Seq<u8>) -> Seq<u8> {
    seq![0x22u8] + json_bytes(s) + seq![0x22u8]
}

impl Out {
    /// Nothing yet.
    pub fn new() -> (o: Out)
        ensures
            o@ == Seq::<u8>::empty(),
    {
        Out(Vec::new())
    }

    /// Appends one byte.
    fn byte(&mut self, c: u8)
        ensures
            final(self)@ == old(self)@.push(c),
    {
        self.0.push(c);
    }

    /// Appends bytes.
    pub fn s(&mut self, s: &[u8])
        ensures
            final(self)@ == old(self)@ + s@,
    {
        let mut i: usize = 0;
        let n: usize = s.len();
        while i < n
            invariant
                i <= n,
                n == s@.len(),
                self@ == old(self)@ + s@.take(i as int),
            decreases n - i,
        {
            self.byte(s[i]);
            assert(self@ =~= old(self)@ + s@.take(i + 1));
            i += 1;
        }
        assert(s@.take(n as int) =~= s@);
    }

    /// Appends a text.
    pub fn text(&mut self, t: &str)
        ensures
            final(self)@ == old(self)@ + bytes_of(t),
    {
        self.s(t.as_bytes());
    }

    /// Appends an unsigned number.
    fn unsigned(&mut self, v: u64)
        ensures
            final(self)@ == old(self)@ + digits_of(v as nat),
    {
        // Digits, last one first.
        let mut d: [u8; 20] = [0; 20];
        let mut n: usize = 0;
        let mut u: u64 = v;
        let ghost all = digits_of(v as nat);
        proof {
            assert(all =~= digits_of(u as nat) + reversed(d@, 0));
            assert(u * 1 == u);
        }
        while u >= 10
            invariant
                n <= 19,
                u * ten_to(n as nat) <= v,
                all == digits_of(u as nat) + reversed(d@, n as int),
            decreases u,
        {
            proof {
                lemma_ten_to(n as nat);
                let t = ten_to(n as nat);
                if n == 19 {
                    assert(u * t >= 10 * t) by (nonlinear_arith)
                        requires
                            u >= 10,
                            t >= 0,
                    ;
                }
                assert((u / 10) * (10 * t) <= u * t) by (nonlinear_arith)
                    requires
                        t >= 0,
                        (u / 10) * 10 <= u,
                ;
            }
            let ghost before = d@;
            let r: u8 = (u % 10) as u8;
            d[n] = 48 + r;
            proof {
                assert(reversed(d@, n + 1) =~= seq![(48 + r) as u8] + reversed(before, n as int));
                assert(digits_of(u as nat) == digits_of((u / 10) as nat).push((48 + r) as u8));
                assert(all =~= digits_of((u / 10) as nat) + reversed(d@, n + 1));
            }
            n += 1;
            u = u / 10;
        }
        let ghost start = self@;
        let last: u8 = 48 + u as u8;
        self.byte(last);
        let mut i: usize = n;
        proof {
            assert(self@ =~= start + seq![last] + reversed(d@, n as int).take(0));
            assert(digits_of(u as nat) == seq![last]);
        }
        while i > 0
            invariant
                i <= n <= 19,
                self@ == start + seq![last] + reversed(d@, n as int).take(n - i),
            decreases i,
        {
            i -= 1;
            self.byte(d[i]);
            assert(reversed(d@, n as int).take(n - i) =~= reversed(d@, n as int).take(
                n - i - 1,
            ).push(d[i as int]));
            assert(self@ =~= start + seq![last] + reversed(d@, n as int).take(n - i));
        }
        proof {
            assert(reversed(d@, n as int).take(n as int) =~= reversed(d@, n as int));
            assert(self@ =~= start + all);
        }
    }

    /// Appends an integer.
    pub fn integer(&mut self, v: i64)
        ensures
            final(self)@ == old(self)@ + decimal(v as int),
    {
        if v < 0 {
            self.byte(45);
            let u: u64 = (-(v + 1)) as u64 + 1;
            self.unsigned(u);
            assert(self@ =~= old(self)@ + decimal(v as int));
        } else {
            self.unsigned(v as u64);
        }
    }

    /// Appends a double-precision number, given by its bit pattern, with `digits` decimals.
    pub fn fixed(&mut self, v: u64, digits: u32)
        requires
            digits <= 19,
        ensures
            final(self)@ == old(self)@ + fixed_text(v, digits as nat),
    {
        let mut scale: u64 = 1;
        let mut k: u32 = 0;
        while k < digits
            invariant
                k <= digits <= 19,
                scale == ten_to(k as nat),
            decreases digits - k,
        {
            proof {
                lemma_ten_to((k + 1) as nat);
            }
            scale *= 10;
            k += 1;
        }
        let ghost start = self@;
        proof {
            lemma_ten_to(digits as nat);
        }
        let u: u64 = to_units(v, scale);
        if v >= SIGN && u != 0 {
            self.byte(45);
        }
        let whole: u64 = u / scale;
        assert((whole as i64) as int == as_signed(whole as int)) by {
            assert(whole < 0x8000_0000_0000_0000 ==> (whole as i64) == whole) by (bit_vector);
            assert(whole >= 0x8000_0000_0000_0000 ==> (whole as i64) == whole
                - 0x1_0000_0000_0000_0000) by (bit_vector);
        }
        self.integer(whole as i64);
        self.byte(46);
        let ghost head = self@;
        // Decimals, first one first.
        k = digits;
        let mut unit: u64 = scale;
        assert(self@ =~= head + last_digits((u as int / ten_to(digits as nat)) as nat, 0));
        while k > 0
            invariant
                k <= digits <= 19,
                unit == ten_to(k as nat),
                self@ == head + last_digits(
                    (u as int / ten_to(k as nat)) as nat,
                    (digits - k) as nat,
                ),
            decreases k,
        {
            proof {
                lemma_ten_to((k - 1) as nat);
                let t = ten_to((k - 1) as nat);
                assert(ten_to(k as nat) == 10 * t);
                vstd::arithmetic::div_mod::lemma_div_denominator(u as int, t, 10);
                assert(t * 10 == 10 * t);
                vstd::arithmetic::div_mod::lemma_div_pos_is_pos(u as int, t);
            }
            unit /= 10;
            let c: u8 = 48 + (u / unit % 10) as u8;
            self.byte(c);
            proof {
                let n = (u as int / ten_to((k - 1) as nat)) as nat;
                assert(last_digits(n, (digits - k + 1) as nat) == last_digits(
                    n / 10,
                    (digits - k) as nat,
                ).push((48 + n % 10) as u8));
                assert(self@ =~= head + last_digits(n, (digits - k + 1) as nat));
            }
            k -= 1;
        }
        proof {
            assert(ten_to(0) == 1);
            assert(u as int / 1 == u);
            assert(self@ =~= start + fixed_text(v, digits as nat));
        }
    }

    /// Appends a JSON string.
    pub fn json_str(&mut self, s: &[u8])
        ensures
            final(self)@ == old(self)@ + json_string(s@),
    {
        let ghost start = self@;
        self.byte(0x22);
        let n: usize = s.len();
        let mut i: usize = 0;
        assert(self@ =~= start + seq![0x22u8] + json_bytes(s@.take(0)));
        while i < n
            invariant
                i <= n,
                n == s@.len(),
                self@ == start + seq![0x22u8] + json_bytes(s@.take(i as int)),
            decreases n - i,
        {
            let c: u8 = s[i];
            let ghost before = self@;
            if c == 0x22 || c == 0x5C {
                self.byte(0x5C);
                self.byte(c);
            } else if c < 0x20 {
                self.byte(0x5C);
                self.byte(0x75);
                self.byte(0x30);
                self.byte(0x30);
                self.byte(hex(c / 16));
                self.byte(hex(c % 16));
            } else {
                self.byte(c);
            }
            proof {
                assert(self@ =~= before + json_byte(c));
                let next = s@.take(i + 1);
                assert(next.drop_last() =~= s@.take(i as int));
                assert(next.last() == c);
                assert(self@ =~= start + seq![0x22u8] + json_bytes(next));
            }
            i += 1;
        }
        self.byte(0x22);
        assert(s@.take(n as int) =~= s@);
        assert(self@ =~= start + json_string(s@));
    }
}

/// The first `n` entries, last one first.
pub open spec fn reversed(d: Seq<u8>, n: int) -> Seq<u8> {
    Seq::new(n as nat, |i: int| d[n - 1 - i])
}

/// A hexadecimal digit.
fn hex(n: u8) -> (r: u8)
    requires
        n < 16,
    ensures
        r == hex_digit(n as int),
{
    if n < 10 {
        48 + n
    } else {
        87 + n
    }
}

/// What an error means.
pub open spec fn reason_of(e: Error) -> Seq<u8> {
    match e {
        Error::Arg => bytes_of("bad argument"),
        Error::Jpeg => bytes_of("not a valid JPEG"),
        Error::Unsupported => bytes_of("unsupported JPEG variant"),
        Error::Size => bytes_of("not a 250x80 image"),
        Error::Model => bytes_of("bad model file"),
    }
}

/// What an error means.
pub fn reason(e: Error) -> (r: &'static [u8])
    ensures
        r@ == reason_of(e),
{
    match e {
        Error::Arg => "bad argument".as_bytes(),
        Error::Jpeg => "not a valid JPEG".as_bytes(),
        Error::Unsupported => "unsupported JPEG variant".as_bytes(),
        Error::Size => "not a 250x80 image".as_bytes(),
        Error::Model => "bad model file".as_bytes(),
    }
}

/// A complaint, as a line.
pub open spec fn complaint_text(msg: Seq<u8>) -> Seq<u8> {
    bytes_of("ccm-cli: ") + msg + bytes_of("\n")
}

/// A complaint, as a line.
pub fn complaint(msg: &[u8]) -> (o: Out)
    ensures
        o@ == complaint_text(msg@),
{
    let mut o = Out::new();
    o.text("ccm-cli: ");
    o.s(msg);
    o.text("\n");
    assert(o@ =~= complaint_text(msg@));
    o
}

/// The first `n` points: each starts with `open`, has `mid` in the middle and `close` at its
/// end, and all but the first have `sep` before them.
pub open spec fn points_text(
    points: [[i32; 2]; 4],
    sep: Seq<u8>,
    open: Seq<u8>,
    mid: Seq<u8>,
    close: Seq<u8>,
    n: int,
) -> Seq<u8>
    decreases n,
{
    if n <= 0 {
        Seq::empty()
    } else {
        points_text(points, sep, open, mid, close, n - 1) + (if n > 1 {
            sep
        } else {
            Seq::empty()
        }) + open + decimal(points[n - 1][0] as int) + mid + decimal(points[n - 1][1] as int)
            + close
    }
}

/// A solution as a line: JSON, or `x0-y0,x1-y1,x2-y2,x3-y3 margin`, after the file's name
/// where there are several.
pub open spec fn solution_text(
    name: Seq<u8>,
    points: [[i32; 2]; 4],
    margin: u64,
    json: bool,
    prefix: bool,
) -> Seq<u8> {
    let none = Seq::<u8>::empty();
    if json {
        bytes_of("{\"file\": ") + json_string(name) + bytes_of(", \"points\": [") + points_text(
            points,
            bytes_of(", "),
            bytes_of("["),
            bytes_of(", "),
            bytes_of("]"),
            4,
        ) + bytes_of("], \"margin\": ") + fixed_text(margin, 6) + bytes_of("}\n")
    } else {
        (if prefix {
            name + bytes_of(" ")
        } else {
            none
        }) + points_text(points, bytes_of(","), none, bytes_of("-"), none, 4) + bytes_of(" ")
            + fixed_text(margin, 6) + bytes_of("\n")
    }
}

/// Appends points.
fn print_points(
    out: &mut Out,
    points: &[[i32; 2]; 4],
    sep: &str,
    open: &str,
    mid: &str,
    close: &str,
)
    ensures
        final(out)@ == old(out)@ + points_text(
            *points,
            bytes_of(sep),
            bytes_of(open),
            bytes_of(mid),
            bytes_of(close),
            4,
        ),
{
    let ghost (s, o, m, c) = (bytes_of(sep), bytes_of(open), bytes_of(mid), bytes_of(close));
    let mut i: usize = 0;
    assert(out@ =~= out@ + points_text(*points, s, o, m, c, 0));
    while i < 4
        invariant
            i <= 4,
            s == bytes_of(sep),
            o == bytes_of(open),
            m == bytes_of(mid),
            c == bytes_of(close),
            out@ == old(out)@ + points_text(*points, s, o, m, c, i as int),
        decreases 4 - i,
    {
        if i > 0 {
            out.text(sep);
        }
        out.text(open);
        out.integer(points[i][0] as i64);
        out.text(mid);
        out.integer(points[i][1] as i64);
        out.text(close);
        assert(out@ =~= old(out)@ + points_text(*points, s, o, m, c, i + 1));
        i += 1;
    }
}

/// Appends a solution.
pub fn print_solution(
    out: &mut Out,
    name: &[u8],
    points: &[[i32; 2]; 4],
    margin: u64,
    json: bool,
    prefix: bool,
)
    ensures
        final(out)@ == old(out)@ + solution_text(name@, *points, margin, json, prefix),
{
    let ghost none = Seq::<u8>::empty();
    proof {
        reveal_strlit("");
        assert(bytes_of("") =~= none) by {
            assert(""@ =~= Seq::<char>::empty());
        }
    }
    if json {
        out.text("{\"file\": ");
        out.json_str(name);
        out.text(", \"points\": [");
        print_points(out, points, ", ", "[", ", ", "]");
        out.text("], \"margin\": ");
        out.fixed(margin, 6);
        out.text("}\n");
    } else {
        if prefix {
            out.s(name);
            out.text(" ");
        }
        print_points(out, points, ",", "", "-", "");
        out.text(" ");
        out.fixed(margin, 6);
        out.text("\n");
    }
    assert(out@ =~= old(out)@ + solution_text(name@, *points, margin, json, prefix));
}

/// An error as a line of JSON.
pub open spec fn error_text(name: Seq<u8>, e: Error) -> Seq<u8> {
    bytes_of("{\"file\": ") + json_string(name) + bytes_of(", \"error\": \"") + reason_of(e)
        + bytes_of("\"}\n")
}

/// Appends an error as a line of JSON.
pub fn print_error(out: &mut Out, name: &[u8], e: Error)
    ensures
        final(out)@ == old(out)@ + error_text(name@, e),
{
    out.text("{\"file\": ");
    out.json_str(name);
    out.text(", \"error\": \"");
    out.s(reason(e));
    out.text("\"}\n");
    assert(out@ =~= old(out)@ + error_text(name@, e));
}

/// What there is to print, and the exit status that goes with it.
pub struct Message {
    /// For standard output.
    pub out: Out,
    /// For standard error.
    pub err: Out,
    pub status: u8,
}

impl Message {
    /// Only standard output is written to.
    pub open spec fn prints(self, out: Seq<u8>, status: int) -> bool {
        self.out@ == out && self.err@ == Seq::<u8>::empty() && self.status == status
    }

    /// Only standard error is written to.
    pub open spec fn complains(self, msg: Seq<u8>, status: int) -> bool {
        self.out@ == Seq::<u8>::empty() && self.err@ == complaint_text(msg) && self.status
            == status
    }
}

/// Complains that a file cannot be read.
pub fn cannot_read(name: &[u8], status: u8) -> (r: Message)
    ensures
        r.complains(bytes_of("cannot read ") + name@, status as int),
{
    let mut msg = Out::new();
    msg.text("cannot read ");
    msg.s(name);
    assert(msg@ =~= bytes_of("cannot read ") + name@);
    Message { out: Out::new(), err: complaint(msg.0.as_slice()), status }
}

/// Complains about a model file.
pub fn bad_model() -> (r: Message)
    ensures
        r.complains(reason_of(Error::Model), 2),
{
    Message { out: Out::new(), err: complaint(reason(Error::Model)), status: 2 }
}

/// Reports what became of a file: its solution, unless it is kept for a benchmark, or why
/// there is none.
pub fn report(
    name: &[u8],
    answer: &Result<([[i32; 2]; 4], u64), Error>,
    json: bool,
    prefix: bool,
    benchmark: bool,
) -> (r: Message)
    ensures
        match *answer {
            Ok((points, margin)) => r.prints(
                if benchmark {
                    Seq::empty()
                } else {
                    solution_text(name@, points, margin, json, prefix)
                },
                0,
            ),
            Err(e) => if json {
                r.prints(error_text(name@, e), 1)
            } else {
                r.complains(name@ + bytes_of(": ") + reason_of(e), 1)
            },
        },
{
    let mut out = Out::new();
    match answer {
        Ok((points, margin)) => {
            if !benchmark {
                print_solution(&mut out, name, points, *margin, json, prefix);
                assert(out@ =~= solution_text(name@, *points, *margin, json, prefix));
            }
            Message { out, err: Out::new(), status: 0 }
        },
        Err(e) => {
            if json {
                print_error(&mut out, name, *e);
                assert(out@ =~= error_text(name@, *e));
                Message { out, err: Out::new(), status: 1 }
            } else {
                let mut msg = Out::new();
                msg.s(name);
                msg.text(": ");
                msg.s(reason(*e));
                assert(msg@ =~= name@ + bytes_of(": ") + reason_of(*e));
                Message { out, err: complaint(msg.0.as_slice()), status: 1 }
            }
        },
    }
}

/// Appends the result of a benchmark.
pub fn print_benchmark(
    out: &mut Out,
    images: usize,
    rounds: usize,
    millis: u64,
    kernel: &str,
    checksum: u64,
)
    ensures
        final(out)@ == old(out)@ + decimal((images as i64) as int) + bytes_of(" images x ")
            + decimal((rounds as i64) as int) + bytes_of(" rounds: ") + fixed_text(millis, 3) + bytes_of(
            " ms/captcha end-to-end, 1 thread, kernel ",
        ) + bytes_of(kernel) + bytes_of(" (checksum ") + fixed_text(checksum, 4) + bytes_of(")\n"),
{
    out.integer(images as i64);
    out.text(" images x ");
    out.integer(rounds as i64);
    out.text(" rounds: ");
    out.fixed(millis, 3);
    out.text(" ms/captcha end-to-end, 1 thread, kernel ");
    out.text(kernel);
    out.text(" (checksum ");
    out.fixed(checksum, 4);
    out.text(")\n");
}

/// What the arguments ask for. Arguments are referred to by their index.
pub struct Options {
    pub json: bool,
    /// Use the portable kernel.
    pub generic: bool,
    /// How often to solve every image for a benchmark; 0 for none.
    pub rounds: usize,
    pub model: Option<usize>,
    pub files: Vec<usize>,
}

/// Options as they are in contracts.
pub ghost struct Choice {
    pub json: bool,
    pub generic: bool,
    pub rounds: int,
    pub model: Option<int>,
    pub files: Seq<int>,
}

impl View for Options {
    type V = Choice;

    open spec fn view(&self) -> Choice {
        Choice {
            json: self.json,
            generic: self.generic,
            rounds: self.rounds as int,
            model: match self.model {
                Some(i) => Some(i as int),
                None => None,
            },
            files: Seq::new(self.files@.len(), |i: int| self.files@[i] as int),
        }
    }
}

/// What to do.
pub enum Command {
    /// Print the usage.
    Help,
    /// Complain about the count of `-b`.
    BadCount,
    /// Complain about an option, by its index.
    Unknown(usize),
    /// Complain that there are no files.
    NoFiles,
    Run(Options),
}

/// Commands as they are in contracts.
pub ghost enum Decision {
    Help,
    BadCount,
    Unknown(int),
    NoFiles,
    Run(Choice),
}

impl View for Command {
    type V = Decision;

    open spec fn view(&self) -> Decision {
        match *self {
            Command::Help => Decision::Help,
            Command::BadCount => Decision::BadCount,
            Command::Unknown(i) => Decision::Unknown(i as int),
            Command::NoFiles => Decision::NoFiles,
            Command::Run(o) => Decision::Run(o@),
        }
    }
}

/// The first `n` digits of a count, as a number of at most `usize::MAX`; none if there is
/// anything but digits.
pub open spec fn count_prefix(s: Seq<u8>, n: int) -> Option<int>
    decreases n,
{
    if n <= 0 {
        Some(0)
    } else {
        match count_prefix(s, n - 1) {
            None => None,
            Some(x) => if 48 <= s[n - 1] <= 57 {
                let y = 10 * x + s[n - 1] - 48;
                Some(
                    if y <= usize::MAX {
                        y
                    } else {
                        usize::MAX as int
                    },
                )
            } else {
                None
            },
        }
    }
}

/// The count that an argument gives; 0 if it is no count.
pub open spec fn count_of(s: Seq<u8>) -> int {
    match count_prefix(s, s.len() as int) {
        Some(x) => x,
        None => 0,
    }
}

/// What is no count stays none.
pub proof fn lemma_count_none(s: Seq<u8>, n: int, m: int)
    requires
        n <= m,
        count_prefix(s, n) is None,
    ensures
        count_prefix(s, m) is None,
    decreases m - n,
{
    if n < m {
        lemma_count_none(s, n, m - 1);
    }
}

/// The count that an argument gives; 0 if it is no count.
pub fn count(s: &[u8]) -> (r: usize)
    ensures
        r == count_of(s@),
{
    let n: usize = s.len();
    let mut x: usize = 0;
    let mut i: usize = 0;
    while i < n
        invariant
            i <= n,
            n == s@.len(),
            count_prefix(s@, i as int) == Some(x as int),
        decreases n - i,
    {
        let c: u8 = s[i];
        if c < 48 || c > 57 {
            proof {
                assert(count_prefix(s@, i + 1) is None);
                lemma_count_none(s@, i + 1, n as int);
            }
            return 0;
        }
        let d: usize = (c - 48) as usize;
        x = if x > (usize::MAX - d) / 10 {
            usize::MAX
        } else {
            10 * x + d
        };
        i += 1;
    }
    x
}

/// What the arguments from `i` on ask for, after `o`.
pub open spec fn parsed(args: Seq<Seq<u8>>, i: int, o: Choice) -> Decision
    decreases args.len() - i,
{
    if i >= args.len() {
        if o.files.len() == 0 {
            Decision::NoFiles
        } else {
            Decision::Run(o)
        }
    } else {
        let a = args[i];
        if a == bytes_of("-j") {
            parsed(args, i + 1, Choice { json: true, ..o })
        } else if a == bytes_of("-g") {
            parsed(args, i + 1, Choice { generic: true, ..o })
        } else if a == bytes_of("-h") || a == bytes_of("--help") {
            Decision::Help
        } else if a == bytes_of("-m") && i + 1 < args.len() {
            parsed(args, i + 2, Choice { model: Some(i + 1), ..o })
        } else if a == bytes_of("-b") && i + 1 < args.len() {
            if count_of(args[i + 1]) == 0 {
                Decision::BadCount
            } else {
                parsed(args, i + 2, Choice { rounds: count_of(args[i + 1]), ..o })
            }
        } else if a.len() > 1 && a[0] == 0x2D {
            Decision::Unknown(i)
        } else {
            parsed(args, i + 1, Choice { files: o.files.push(i), ..o })
        }
    }
}

/// No arguments yet.
pub open spec fn no_choice() -> Choice {
    Choice { json: false, generic: false, rounds: 0, model: None, files: Seq::empty() }
}

/// Arguments as sequences.
pub open spec fn args_of(args: Seq<Vec<u8>>) -> Seq<Seq<u8>> {
    Seq::new(args.len(), |i: int| args[i]@)
}

/// Whether an argument is a text.
fn is_text(a: &[u8], t: &str) -> (r: bool)
    ensures
        r == (a@ == bytes_of(t)),
{
    let b: &[u8] = t.as_bytes();
    if a.len() != b.len() {
        return false;
    }
    let n: usize = a.len();
    let mut i: usize = 0;
    while i < n
        invariant
            i <= n,
            n == a@.len(),
            n == b@.len(),
            b@ == bytes_of(t),
            forall|j: int| 0 <= j < i ==> a@[j] == b@[j],
        decreases n - i,
    {
        if a[i] != b[i] {
            return false;
        }
        i += 1;
    }
    assert(a@ =~= b@);
    true
}

/// Every argument that a command refers to is there.
pub open spec fn refers_to(d: Decision, n: int) -> bool {
    match d {
        Decision::Unknown(i) => 0 <= i < n,
        Decision::Run(o) => {
            &&& o.model matches Some(i) ==> 0 <= i < n
            &&& forall|k: int| 0 <= k < o.files.len() ==> 0 <= #[trigger] o.files[k] < n
        },
        _ => true,
    }
}

/// Decides what to do, from the arguments behind the program's name.
pub fn parse(args: &Vec<Vec<u8>>) -> (r: Command)
    ensures
        r@ == parsed(args_of(args@), 1, no_choice()),
        refers_to(r@, args@.len() as int),
{
    let ghost all = args_of(args@);
    let mut o = Options { json: false, generic: false, rounds: 0, model: None, files: Vec::new() };
    let n: usize = args.len();
    let mut i: usize = 1;
    proof {
        assert(o@.files =~= Seq::<int>::empty());
        if n == 0 {
            assert(parsed(all, 1, no_choice()) == Decision::NoFiles);
        }
    }
    while i < n
        invariant
            n == args@.len(),
            1 <= i,
            i <= n || n == 0,
            all == args_of(args@),
            parsed(all, i as int, o@) == parsed(all, 1, no_choice()),
            refers_to(Decision::Run(o@), n as int),
        decreases n - i,
    {
        let a: &[u8] = args[i].as_slice();
        assert(all[i as int] == a@);
        let ghost before = o@;
        if is_text(a, "-j") {
            o.json = true;
            assert(o@.files =~= before.files);
        } else if is_text(a, "-g") {
            o.generic = true;
            assert(o@.files =~= before.files);
        } else if is_text(a, "-h") || is_text(a, "--help") {
            return Command::Help;
        } else if is_text(a, "-m") && i + 1 < n {
            o.model = Some(i + 1);
            assert(o@.files =~= before.files);
            i += 1;
        } else if is_text(a, "-b") && i + 1 < n {
            assert(all[i + 1] == args@[i + 1]@);
            let rounds: usize = count(args[i + 1].as_slice());
            if rounds == 0 {
                return Command::BadCount;
            }
            o.rounds = rounds;
            assert(o@.files =~= before.files);
            i += 1;
        } else if a.len() > 1 && a[0] == 0x2D {
            return Command::Unknown(i);
        } else {
            o.files.push(i);
            assert(o@.files =~= before.files.push(i as int));
        }
        i += 1;
    }
    if o.files.len() == 0 {
        return Command::NoFiles;
    }
    Command::Run(o)
}

/// How to use the program.
pub const USAGE: &'static str = "usage: ccm-cli [-j] [-m model.ccm] [-b N] [-g] image.jpg|- ...\n\
    prints `x0-y0,x1-y1,x2-y2,x3-y3 margin` per image, points in prompt order\n\
    -j    JSON lines\n\
    -m    .ccm model file (default: the embedded w16)\n\
    -b N  benchmark: solve every image N times, print ms/captcha\n\
    -g    use the portable kernel instead of AVX2 / NEON\n";

/// What to print when there is nothing to run.
pub open spec fn answers(m: Message, d: Decision, args: Seq<Seq<u8>>) -> bool {
    match d {
        Decision::Help => m.prints(bytes_of(USAGE), 0),
        Decision::BadCount => m.complains(bytes_of("-b needs a positive count"), 2),
        Decision::Unknown(i) => m.complains(
            bytes_of("unknown option ") + args[i] + bytes_of("\n") + bytes_of(USAGE),
            2,
        ),
        Decision::NoFiles => m.complains(bytes_of(USAGE), 2),
        Decision::Run(_) => false,
    }
}

/// Decides what to run, or what to print when there is nothing to run.
pub fn start(args: &Vec<Vec<u8>>) -> (r: Result<Options, Message>)
    ensures
        match parsed(args_of(args@), 1, no_choice()) {
            Decision::Run(o) => r matches Ok(x) && x@ == o && refers_to(
                Decision::Run(o),
                args@.len() as int,
            ),
            d => r matches Err(m) && answers(m, d, args_of(args@)),
        },
{
    let mut msg = Out::new();
    match parse(args) {
        Command::Run(o) => {
            return Ok(o);
        },
        Command::Help => {
            msg.text(USAGE);
            assert(msg@ =~= bytes_of(USAGE));
            return Err(Message { out: msg, err: Out::new(), status: 0 });
        },
        Command::BadCount => {
            msg.text("-b needs a positive count");
            assert(msg@ =~= bytes_of("-b needs a positive count"));
        },
        Command::Unknown(i) => {
            msg.text("unknown option ");
            msg.s(args[i].as_slice());
            msg.text("\n");
            msg.text(USAGE);
            assert(msg@ =~= bytes_of("unknown option ") + args_of(args@)[i as int] + bytes_of("\n")
                + bytes_of(USAGE));
        },
        Command::NoFiles => {
            msg.text(USAGE);
            assert(msg@ =~= bytes_of(USAGE));
        },
    }
    Err(Message { out: Out::new(), err: complaint(msg.0.as_slice()), status: 2 })
}

/// The number that decimal digits stand for.
pub open spec fn number_of(s: Seq<u8>) -> int
    decreases s.len(),
{
    if s.len() == 0 {
        0
    } else {
        10 * number_of(s.drop_last()) + s.last() - 48
    }
}

/// Printed numbers read back as they were, and have no leading zero.
pub proof fn lemma_digits_read_back(n: nat)
    ensures
        number_of(digits_of(n)) == n,
        digits_of(n).len() >= 1,
        n >= 10 ==> digits_of(n)[0] != 48,
        forall|i: int| 0 <= i < digits_of(n).len() ==> 48 <= #[trigger] digits_of(n)[i] <= 57,
    decreases n,
{
    let d = digits_of(n);
    if n < 10 {
        assert(d.drop_last() =~= Seq::<u8>::empty());
        assert(number_of(d.drop_last()) == 0);
    } else {
        lemma_digits_read_back(n / 10);
        assert(d.drop_last() =~= digits_of(n / 10));
        assert(d[0] == digits_of(n / 10)[0]);
        if n / 10 < 10 {
            assert(digits_of(n / 10)[0] == 48 + n / 10);
        }
    }
}

/// Counts are read as they are printed.
pub proof fn lemma_count_reads_digits(n: nat)
    requires
        n <= usize::MAX,
    ensures
        count_of(digits_of(n)) == n,
{
    lemma_digits_read_back(n);
    lemma_count_is_number(digits_of(n), digits_of(n).len() as int);
    assert(digits_of(n).take(digits_of(n).len() as int) =~= digits_of(n));
}

proof fn lemma_number_grows(s: Seq<u8>, n: int)
    requires
        0 <= n <= s.len(),
        forall|i: int| 0 <= i < s.len() ==> 48 <= #[trigger] s[i] <= 57,
    ensures
        0 <= number_of(s.take(n)) <= number_of(s),
    decreases s.len(),
{
    if n == s.len() {
        assert(s.take(n) =~= s);
        if s.len() > 0 {
            lemma_number_grows(s.drop_last(), n - 1);
        }
    } else {
        lemma_number_grows(s.drop_last(), n);
        assert(s.drop_last().take(n) =~= s.take(n));
    }
}

proof fn lemma_count_is_number(s: Seq<u8>, n: int)
    requires
        0 <= n <= s.len(),
        forall|i: int| 0 <= i < s.len() ==> 48 <= #[trigger] s[i] <= 57,
        number_of(s) <= usize::MAX,
    ensures
        count_prefix(s, n) == Some(number_of(s.take(n))),
    decreases n,
{
    if n > 0 {
        lemma_count_is_number(s, n - 1);
        lemma_number_grows(s, n);
        assert(s.take(n).drop_last() =~= s.take(n - 1));
        assert(48 <= s[n - 1] <= 57);
    } else {
        assert(s.take(0) =~= Seq::<u8>::empty());
    }
}

/// The value of a hexadecimal digit.
pub open spec fn hex_value(c: u8) -> int {
    if c < 58 {
        c - 48
    } else {
        c - 87
    }
}

/// What a JSON string's inside stands for, as far as `json_bytes` escapes.
pub open spec fn json_read(t: Seq<u8>) -> Seq<u8>
    decreases t.len(),
{
    if t.len() == 0 {
        Seq::empty()
    } else if t[0] != 0x5C {
        seq![t[0]] + json_read(t.skip(1))
    } else if t.len() >= 6 && t[1] == 0x75 {
        seq![(16 * hex_value(t[4]) + hex_value(t[5])) as u8] + json_read(t.skip(6))
    } else if t.len() >= 2 {
        seq![t[1]] + json_read(t.skip(2))
    } else {
        t
    }
}

/// The inside of a JSON string, from its front.
pub proof fn lemma_json_front(c: u8, s: Seq<u8>)
    ensures
        json_bytes(seq![c] + s) == json_byte(c) + json_bytes(s),
    decreases s.len(),
{
    let all = seq![c] + s;
    if s.len() == 0 {
        assert(all.drop_last() =~= s);
        assert(json_bytes(s) =~= Seq::<u8>::empty());
        assert(all.last() == c);
        assert(json_bytes(all) =~= json_byte(c) + json_bytes(s));
    } else {
        lemma_json_front(c, s.drop_last());
        assert(all.drop_last() =~= seq![c] + s.drop_last());
        assert(all.last() == s.last());
        assert(json_bytes(all) =~= json_byte(c) + json_bytes(s));
    }
}

/// A name can be read back from its JSON string, which holds neither a bare quote nor a
/// control character.
pub proof fn lemma_json_read_back(s: Seq<u8>)
    ensures
        json_read(json_bytes(s)) == s,
        forall|i: int| 0 <= i < json_bytes(s).len() ==> #[trigger] json_bytes(s)[i] >= 0x20,
        forall|i: int|
            0 <= i < json_bytes(s).len() && #[trigger] json_bytes(s)[i] == 0x22 ==> i > 0
                && json_bytes(s)[i - 1] == 0x5C,
    decreases s.len(),
{
    if s.len() == 0 {
        assert(json_read(json_bytes(s)) =~= s);
    } else {
        let (c, rest) = (s[0], s.skip(1));
        assert(s =~= seq![c] + rest);
        lemma_json_front(c, rest);
        lemma_json_read_back(rest);
        let (b, r) = (json_byte(c), json_bytes(rest));
        let t = b + r;
        assert(json_bytes(s) == t);
        if c == 0x22 || c == 0x5C {
            assert(t[0] == 0x5C && t[1] == c);
            assert(t.skip(2) =~= r);
            assert(c != 0x75);
        } else if c < 0x20 {
            assert(t[0] == 0x5C && t[1] == 0x75);
            assert(t[4] == hex_digit(c as int / 16) && t[5] == hex_digit(c as int % 16));
            assert(t.skip(6) =~= r);
            assert(16 * hex_value(t[4]) + hex_value(t[5]) == c);
        } else {
            assert(t[0] == c);
            assert(t.skip(1) =~= r);
        }
        assert(json_read(t) =~= s);
        assert forall|i: int| 0 <= i < t.len() && #[trigger] t[i] == 0x22 implies i > 0 && t[i - 1]
            == 0x5C by {
            if i >= b.len() {
                assert(r[i - b.len()] == 0x22);
            }
        }
        assert forall|i: int| 0 <= i < t.len() implies #[trigger] t[i] >= 0x20 by {
            if i >= b.len() {
                assert(t[i] == r[i - b.len()]);
            }
        }
    }
}

} // verus!
