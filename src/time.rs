//! Time-of-day values and half-open windows between them.
use chrono::Timelike;
use vstd::prelude::*;

verus! {

/// Milliseconds in one day.
pub const DAY: u64 = 86400000;

/// Total milliseconds of an hours / minutes / seconds / milliseconds reading.
pub open spec fn total_ms(h: int, m: int, s: int, ms: int) -> int {
    h * 3600000 + m * 60000 + s * 1000 + ms
}

/// The smaller of `v` and one day.
pub open spec fn clamp_to_day(v: int) -> int {
    if v < DAY as int {
        v
    } else {
        DAY as int
    }
}

/// The decimal digit `d` as a character.
pub open spec fn digit_char(d: int) -> char {
    ((48 + d) as u8) as char
}

/// `n` written with two digits, zero-padded.
pub open spec fn two_digits(n: int) -> Seq<char> {
    seq![digit_char(n / 10), digit_char(n % 10)]
}

/// `n` written with three digits, zero-padded.
pub open spec fn three_digits(n: int) -> Seq<char> {
    seq![digit_char(n / 100), digit_char(n / 10 % 10), digit_char(n % 10)]
}

/// The text `HH:MM:SS:mmm` of a moment `v` milliseconds after midnight.
pub open spec fn text_of(v: int) -> Seq<char> {
    two_digits(v / 3600000) + seq![':'] + two_digits(v / 60000 % 60) + seq![':']
        + two_digits(v / 1000 % 60) + seq![':'] + three_digits(v % 1000)
}

/// The colon-separated fields of `s`; an empty text has one empty field.
pub open spec fn fields(s: Seq<char>) -> Seq<Seq<char>>
    decreases s.len(),
{
    if s.len() == 0 {
        seq![Seq::empty()]
    } else {
        let f = fields(s.drop_last());
        if s.last() == ':' {
            f.push(Seq::empty())
        } else {
            f.update(f.len() - 1, f.last().push(s.last()))
        }
    }
}

/// Whether `c` is an ASCII decimal digit.
pub open spec fn is_digit(c: char) -> bool {
    48 <= c as u32 <= 57
}

/// The value of a string of decimal digits.
pub open spec fn digits_value(d: Seq<char>) -> int
    decreases d.len(),
{
    if d.len() == 0 {
        0
    } else {
        digits_value(d.drop_last()) * 10 + (d.last() as u32 - 48)
    }
}

/// The digits of an unsigned number's text: all of it but one leading plus sign.
pub open spec fn unsigned_digits(s: Seq<char>) -> Seq<char> {
    if s.len() > 1 && s[0] == '+' {
        s.drop_first()
    } else {
        s
    }
}

/// The `u64` that `s` writes in decimal, with an optional leading plus sign.
pub open spec fn number_of(s: Seq<char>) -> Option<u64> {
    let d = unsigned_digits(s);
    if d.len() > 0 && (forall|i: int| 0 <= i < d.len() ==> is_digit(#[trigger] d[i]))
        && digits_value(d) <= u64::MAX {
        Some(digits_value(d) as u64)
    } else {
        None
    }
}

/// The milliseconds that a text `H:M`, `H:M:S` or `H:M:S:ms` names, if it is one.
pub open spec fn text_millis(s: Seq<char>) -> Option<int> {
    let f = fields(s);
    if 2 <= f.len() <= 4 && forall|i: int| 0 <= i < f.len() ==> (#[trigger] number_of(f[i])) is Some {
        Some(
            total_ms(
                number_of(f[0])->0 as int,
                number_of(f[1])->0 as int,
                if f.len() > 2 {
                    number_of(f[2])->0 as int
                } else {
                    0
                },
                if f.len() > 3 {
                    number_of(f[3])->0 as int
                } else {
                    0
                },
            ),
        )
    } else {
        None
    }
}

/// Relies on `String::push`, which appends one character.
pub assume_specification[ std::string::String::push ](s: &mut std::string::String, ch: char)
    ensures
        final(s)@ == old(s)@.push(ch),
;

/// Relies on chrono's `Local::now`: the local time of day in whole seconds since
/// midnight (below 86400) and the milliseconds past that second (below 2000, which
/// a leap second can reach).
#[verifier::external_body]
fn local_clock() -> (r: (u32, u32))
    ensures
        r.0 < 86400,
        r.1 < 2000,
{
    let n = chrono::Local::now();
    (n.time().num_seconds_from_midnight(), n.timestamp_subsec_millis())
}

/// A moment of the day, held as milliseconds since midnight, at most one day.
#[derive(Debug, Copy, Clone, PartialEq, Eq, PartialOrd, Ord, Hash)]
pub struct Moment(u64);

impl View for Moment {
    type V = int;

    closed spec fn view(&self) -> int {
        self.0 as int
    }
}

impl Moment {
    #[verifier::type_invariant]
    spec fn within_day(self) -> bool {
        self.0 <= DAY
    }

    /// A moment is determined by its milliseconds.
    pub proof fn lemma_view_injective(self, other: Moment)
        requires
            self@ == other@,
        ensures
            self == other,
    {
    }

    /// Creates a moment from milliseconds since midnight, clamped to one day.
    pub fn from_milliseconds(t: u64) -> (r: Moment)
        ensures
            r@ == clamp_to_day(t as int),
    {
        if t < DAY {
            Moment(t)
        } else {
            Moment(DAY)
        }
    }

    /// Creates a moment from hours, minutes and seconds, clamped to one day.
    pub fn new(hours: u64, minutes: u64, seconds: u64) -> (r: Moment)
        ensures
            r@ == clamp_to_day(total_ms(hours as int, minutes as int, seconds as int, 0)),
    {
        Self::from_milliseconds(saturating_total(hours, minutes, seconds, 0))
    }

    /// Creates a moment from hours, minutes, seconds and milliseconds, clamped to one day.
    pub fn new_full(hours: u64, minutes: u64, seconds: u64, milliseconds: u64) -> (r: Moment)
        ensures
            r@ == clamp_to_day(
                total_ms(hours as int, minutes as int, seconds as int, milliseconds as int),
            ),
    {
        Self::from_milliseconds(saturating_total(hours, minutes, seconds, milliseconds))
    }

    /// Creates a moment from hours, minutes and seconds; `None` unless it falls
    /// before the end of the day.
    pub fn from(hours: u64, minutes: u64, seconds: u64) -> (r: Option<Moment>)
        ensures
            r is Some <==> total_ms(hours as int, minutes as int, seconds as int, 0) < DAY,
            r is Some ==> r->0@ == total_ms(hours as int, minutes as int, seconds as int, 0),
    {
        Self::from_full(hours, minutes, seconds, 0)
    }

    /// Creates a moment from hours, minutes, seconds and milliseconds; `None`
    /// unless it falls before the end of the day.
    pub fn from_full(h: u64, m: u64, s: u64, ms: u64) -> (r: Option<Moment>)
        ensures
            r is Some <==> total_ms(h as int, m as int, s as int, ms as int) < DAY,
            r is Some ==> r->0@ == total_ms(h as int, m as int, s as int, ms as int),
    {
        let t = saturating_total(h, m, s, ms);
        if t < DAY {
            Some(Moment(t))
        } else {
            None
        }
    }

    /// Parses `H:M`, `H:M:S` or `H:M:S:ms`, each field a decimal `u64`; `None`
    /// for any other text, and for a time that does not fall before the end of
    /// the day.
    pub fn from_string(v: &str) -> (r: Option<Moment>)
        ensures
            r is Some <==> (text_millis(v@) is Some && text_millis(v@)->0 < DAY),
            r is Some ==> r->0@ == text_millis(v@)->0,
    {
        let n = v.unicode_len();
        let mut nums: Vec<Option<u64>> = Vec::new();
        let mut cur: Vec<char> = Vec::new();
        let mut i: usize = 0;
        while i < n
            invariant
                n == v@.len(),
                i <= n,
                fields(v@.subrange(0, i as int)).len() == nums@.len() + 1,
                fields(v@.subrange(0, i as int)).last() == cur@,
                forall|j: int|
                    0 <= j < nums@.len() ==> nums@[j] == number_of(
                        #[trigger] fields(v@.subrange(0, i as int))[j],
                    ),
            decreases n - i,
        {
            let c = v.get_char(i);
            let ghost pre = v@.subrange(0, i as int);
            assert(v@.subrange(0, i + 1).drop_last() =~= pre);
            if c == ':' {
                let x = parse_number(&cur);
                nums.push(x);
                cur = Vec::new();
            } else {
                cur.push(c);
            }
            i = i + 1;
        }
        assert(v@.subrange(0, n as int) =~= v@);
        let x = parse_number(&cur);
        nums.push(x);
        let k = nums.len();
        if k < 2 || k > 4 {
            return None;
        }
        let h = match nums[0] {
            Some(x) => x,
            None => return None,
        };
        let m = match nums[1] {
            Some(x) => x,
            None => return None,
        };
        let s = if k > 2 {
            match nums[2] {
                Some(x) => x,
                None => return None,
            }
        } else {
            0
        };
        let ms = if k > 3 {
            match nums[3] {
                Some(x) => x,
                None => return None,
            }
        } else {
            0
        };
        proof {
            assert(forall|j: int| 0 <= j < fields(v@).len() ==> nums@[j] == number_of(fields(v@)[j]));
        }
        Self::from_full(h, m, s, ms)
    }

    /// The moment of a clock reading: whole seconds since midnight and the
    /// milliseconds past them, reduced modulo one day.
    pub fn from_clock(seconds: u32, subsec_millis: u32) -> (r: Moment)
        ensures
            r@ == (seconds as int * 1000 + subsec_millis as int) % (DAY as int),
    {
        let t: u64 = seconds as u64 * 1000 + subsec_millis as u64;
        Self::from_milliseconds(t % DAY)
    }

    /// The time of day now, by the host's local clock.
    pub fn now() -> (r: Moment)
        ensures
            0 <= r@ < DAY,
    {
        let (seconds, millis) = local_clock();
        Self::from_clock(seconds, millis)
    }

    /// Whole hours since midnight.
    pub fn as_hours(&self) -> (r: u64)
        ensures
            r == self@ / 3600000,
    {
        self.0 / 1000 / 60 / 60
    }

    /// Whole minutes since midnight.
    pub fn as_minutes(&self) -> (r: u64)
        ensures
            r == self@ / 60000,
    {
        self.0 / 1000 / 60
    }

    /// Whole seconds since midnight.
    pub fn as_seconds(&self) -> (r: u64)
        ensures
            r == self@ / 1000,
    {
        self.0 / 1000
    }

    /// Milliseconds since midnight.
    pub fn as_milliseconds(&self) -> (r: u64)
        ensures
            r == self@,
            r <= DAY,
    {
        proof {
            use_type_invariant(self);
        }
        self.0
    }

    /// Milliseconds past the last whole second.
    pub fn subsec_milliseconds(&self) -> (r: u64)
        ensures
            r == self@ % 1000,
    {
        self.0 % 1000
    }

    /// The moment as zero-padded `HH:MM:SS:mmm`.
    pub fn to_string(&self) -> (r: String)
        ensures
            r@ == text_of(self@),
    {
        proof {
            use_type_invariant(self);
        }
        let v = self.0;
        let mut r = String::new();
        push_digits(&mut r, v / 3600000, 2);
        r.push(':');
        push_digits(&mut r, v / 60000 % 60, 2);
        r.push(':');
        push_digits(&mut r, v / 1000 % 60, 2);
        r.push(':');
        push_digits(&mut r, v % 1000, 3);
        r
    }
}

/// A digit string's value grows as digits are added to its end.
proof fn lemma_digits_prefix(d: Seq<char>, k: int)
    requires
        0 <= k <= d.len(),
        forall|i: int| 0 <= i < d.len() ==> is_digit(#[trigger] d[i]),
    ensures
        0 <= digits_value(d.subrange(0, k)) <= digits_value(d),
    decreases d.len(),
{
    if d.len() == 0 {
        assert(d.subrange(0, k) =~= d);
    } else {
        let e = d.drop_last();
        assert(is_digit(d[d.len() - 1]));
        if k < d.len() {
            assert(e.subrange(0, k) =~= d.subrange(0, k));
            lemma_digits_prefix(e, k);
        } else {
            assert(e.subrange(0, e.len() as int) =~= e);
            lemma_digits_prefix(e, e.len() as int);
            assert(d.subrange(0, k) =~= d);
        }
    }
}

/// Reads one field: a decimal `u64`, with an optional leading plus sign.
fn parse_number(cur: &Vec<char>) -> (r: Option<u64>)
    ensures
        r == number_of(cur@),
{
    let len = cur.len();
    let mut start: usize = 0;
    if len > 1 && cur[0] == '+' {
        start = 1;
    }
    let ghost d = unsigned_digits(cur@);
    assert(d =~= cur@.subrange(start as int, len as int));
    if start == len {
        return None;
    }
    let mut val: u64 = 0;
    let mut i: usize = start;
    while i < len
        invariant
            start <= i <= len,
            len == cur@.len(),
            d == cur@.subrange(start as int, len as int),
            d == unsigned_digits(cur@),
            start < len,
            forall|j: int| start <= j < i ==> is_digit(#[trigger] cur@[j]),
            val == digits_value(cur@.subrange(start as int, i as int)),
        decreases len - i,
    {
        let c = cur[i];
        let code = c as u32;
        if code < 48 || code > 57 {
            assert(!is_digit(d[i - start]));
            assert(number_of(cur@) is None);
            return None;
        }
        let ghost next = cur@.subrange(start as int, i + 1);
        assert(next.drop_last() =~= cur@.subrange(start as int, i as int));
        let nv: u128 = val as u128 * 10 + (code - 48) as u128;
        if nv > u64::MAX as u128 {
            proof {
                if forall|j: int| 0 <= j < d.len() ==> is_digit(#[trigger] d[j]) {
                    assert(d.subrange(0, i + 1 - start) =~= next);
                    lemma_digits_prefix(d, i + 1 - start);
                }
                assert(number_of(cur@) is None);
            }
            return None;
        }
        val = nv as u64;
        i = i + 1;
    }
    assert(cur@.subrange(start as int, i as int) =~= d);
    Some(val)
}

/// Appends `n` with `width` digits, zero-padded.
fn push_digits(out: &mut String, n: u64, width: u64)
    requires
        width == 2 ==> n < 100,
        width == 3 ==> n < 1000,
        width == 2 || width == 3,
    ensures
        width == 2 ==> final(out)@ == old(out)@ + two_digits(n as int),
        width == 3 ==> final(out)@ == old(out)@ + three_digits(n as int),
{
    if width == 3 {
        out.push(((n / 100) as u8 + 48) as char);
    }
    out.push(((n / 10 % 10) as u8 + 48) as char);
    out.push(((n % 10) as u8 + 48) as char);
    assert(width == 2 ==> n / 10 % 10 == n / 10);
    assert(width == 2 ==> final(out)@ =~= old(out)@ + two_digits(n as int));
    assert(width == 3 ==> final(out)@ =~= old(out)@ + three_digits(n as int));
}

/// The total milliseconds of a reading, or `u64::MAX` where it does not fit.
fn saturating_total(h: u64, m: u64, s: u64, ms: u64) -> (r: u64)
    ensures
        r == if total_ms(h as int, m as int, s as int, ms as int) <= u64::MAX {
            total_ms(h as int, m as int, s as int, ms as int)
        } else {
            u64::MAX as int
        },
{
    let t: u128 = h as u128 * 3600000 + m as u128 * 60000 + s as u128 * 1000 + ms as u128;
    if t <= u64::MAX as u128 {
        t as u64
    } else {
        u64::MAX
    }
}

/// A character written as a digit reads back as that digit.
proof fn lemma_digit_char(d: int)
    requires
        0 <= d < 10,
    ensures
        is_digit(digit_char(d)),
        digit_char(d) as u32 - 48 == d,
        digit_char(d) != ':',
        digit_char(d) != '+',
{
}

/// Appending text without a colon extends the last field.
proof fn lemma_fields_extend(p: Seq<char>, b: Seq<char>)
    requires
        forall|i: int| 0 <= i < b.len() ==> b[i] != ':',
    ensures
        fields(p + b).len() == fields(p).len(),
        fields(p + b) == fields(p).update(fields(p).len() - 1, fields(p).last() + b),
    decreases b.len(),
{
    lemma_fields_nonempty(p);
    if b.len() == 0 {
        assert(p + b =~= p);
        assert(fields(p).last() + b =~= fields(p).last());
        assert(fields(p).update(fields(p).len() - 1, fields(p).last()) =~= fields(p));
    } else {
        let c = b.drop_last();
        lemma_fields_extend(p, c);
        assert((p + b).drop_last() =~= p + c);
        assert((p + b).last() == b.last());
        let f = fields(p + c);
        assert(f.last() == fields(p).last() + c);
        assert(f.last().push(b.last()) =~= fields(p).last() + b);
        assert(fields(p + b) =~= fields(p).update(fields(p).len() - 1, fields(p).last() + b));
    }
}

/// Every text has at least one field.
proof fn lemma_fields_nonempty(s: Seq<char>)
    ensures
        fields(s).len() >= 1,
    decreases s.len(),
{
    if s.len() > 0 {
        lemma_fields_nonempty(s.drop_last());
    }
}

/// A colon and then text without one add that text as a field.
proof fn lemma_fields_join(p: Seq<char>, b: Seq<char>)
    requires
        forall|i: int| 0 <= i < b.len() ==> b[i] != ':',
    ensures
        fields(p + seq![':'] + b) == fields(p).push(b),
{
    let q = p + seq![':'];
    assert(q.drop_last() =~= p);
    lemma_fields_nonempty(p);
    let e: Seq<char> = Seq::empty();
    assert(fields(q) == fields(p).push(e));
    lemma_fields_extend(q, b);
    assert(e + b =~= b);
    assert(fields(q + b) =~= fields(p).push(b));
}

/// Text without a colon is a single field.
proof fn lemma_fields_single(b: Seq<char>)
    requires
        forall|i: int| 0 <= i < b.len() ==> b[i] != ':',
    ensures
        fields(b) == seq![b],
{
    let e: Seq<char> = Seq::empty();
    lemma_fields_extend(e, b);
    assert(e + b =~= b);
    assert(fields(e) =~= seq![e]);
    assert(seq![e].update(0, e + b) =~= seq![b]);
}

/// Two digits written zero-padded read back as their number.
proof fn lemma_two_digits(n: int)
    requires
        0 <= n < 100,
    ensures
        number_of(two_digits(n)) == Some(n as u64),
        forall|i: int| 0 <= i < two_digits(n).len() ==> two_digits(n)[i] != ':',
{
    let t = two_digits(n);
    lemma_digit_char(n / 10);
    lemma_digit_char(n % 10);
    assert(unsigned_digits(t) == t);
    assert(t.drop_last() =~= seq![digit_char(n / 10)]);
    assert(t.drop_last().drop_last() =~= Seq::<char>::empty());
    assert(digits_value(Seq::<char>::empty()) == 0);
    assert(digits_value(t.drop_last()) == n / 10);
    assert(n == n / 10 * 10 + n % 10);
    assert(digits_value(t) == n);
}

/// Three digits written zero-padded read back as their number.
proof fn lemma_three_digits(n: int)
    requires
        0 <= n < 1000,
    ensures
        number_of(three_digits(n)) == Some(n as u64),
        forall|i: int| 0 <= i < three_digits(n).len() ==> three_digits(n)[i] != ':',
{
    let t = three_digits(n);
    lemma_digit_char(n / 100);
    lemma_digit_char(n / 10 % 10);
    lemma_digit_char(n % 10);
    assert(unsigned_digits(t) == t);
    assert(t.drop_last() =~= seq![digit_char(n / 100), digit_char(n / 10 % 10)]);
    assert(t.drop_last().drop_last() =~= seq![digit_char(n / 100)]);
    assert(t.drop_last().drop_last().drop_last() =~= Seq::<char>::empty());
    assert(digits_value(Seq::<char>::empty()) == 0);
    assert(digits_value(t.drop_last().drop_last()) == n / 100);
    assert(n / 10 == n / 100 * 10 + n / 10 % 10);
    assert(digits_value(t.drop_last()) == n / 10);
    assert(n == n / 10 * 10 + n % 10);
    assert(digits_value(t) == n);
}

/// Reading back the text of a moment before the end of the day gives that
/// moment: `Moment::from_string(&t.to_string())` is `Some(t)`.
pub proof fn lemma_text_round_trip(t: Moment)
    requires
        t@ < DAY,
    ensures
        text_millis(text_of(t@)) == Some(t@),
{
    let v = t@;
    assert(0 <= v) by {
        assert(t@ == t.0 as int);
    }
    let h = v / 3600000;
    let m = v / 60000 % 60;
    let s = v / 1000 % 60;
    let ms = v % 1000;
    lemma_two_digits(h);
    lemma_two_digits(m);
    lemma_two_digits(s);
    lemma_three_digits(ms);
    let a = two_digits(h);
    let c = seq![':'];
    lemma_fields_single(a);
    lemma_fields_join(a, two_digits(m));
    lemma_fields_join(a + c + two_digits(m), two_digits(s));
    lemma_fields_join(a + c + two_digits(m) + c + two_digits(s), three_digits(ms));
    let f = fields(text_of(v));
    assert(f =~= seq![a, two_digits(m), two_digits(s), three_digits(ms)]);
    assert(forall|i: int| 0 <= i < f.len() ==> (#[trigger] number_of(f[i])) is Some) by {
        assert(f[0] == a && f[1] == two_digits(m) && f[2] == two_digits(s) && f[3] == three_digits(ms));
    }
    assert(total_ms(h, m, s, ms) == v) by {
        assert(v == h * 3600000 + (v % 3600000)) by (nonlinear_arith)
            requires h == v / 3600000;
        assert(v / 60000 == h * 60 + v / 60000 % 60) by (nonlinear_arith)
            requires h == v / 3600000, v >= 0;
        assert(v / 1000 == (v / 60000) * 60 + v / 1000 % 60) by (nonlinear_arith)
            requires v >= 0;
        assert(v == (v / 1000) * 1000 + v % 1000) by (nonlinear_arith)
            requires v >= 0;
    }
}

/// A moment built from hours, minutes and seconds that fall within the day
/// counts those seconds, and, with minutes and seconds below sixty, is written
/// as those three numbers in two digits each and then `000`.
pub proof fn lemma_new_text_and_seconds(h: u64, m: u64, s: u64)
    requires
        h * 3600 + m * 60 + s < 86400,
    ensures
        clamp_to_day(total_ms(h as int, m as int, s as int, 0)) / 1000 == h * 3600 + m * 60 + s,
        m < 60 && s < 60 ==> text_of(clamp_to_day(total_ms(h as int, m as int, s as int, 0)))
            == two_digits(h as int) + seq![':'] + two_digits(m as int) + seq![':']
            + two_digits(s as int) + seq![':', '0', '0', '0'],
{
    let v = total_ms(h as int, m as int, s as int, 0);
    assert(v == (h * 3600 + m * 60 + s) * 1000);
    assert(clamp_to_day(v) == v);
    vstd::arithmetic::div_mod::lemma_fundamental_div_mod_converse(
        v,
        1000,
        h * 3600 + m * 60 + s,
        0,
    );
    if m < 60 && s < 60 {
        vstd::arithmetic::div_mod::lemma_fundamental_div_mod_converse(
            v,
            3600000,
            h as int,
            m * 60000 + s * 1000,
        );
        vstd::arithmetic::div_mod::lemma_fundamental_div_mod_converse(
            v,
            60000,
            h * 60 + m,
            s * 1000,
        );
        vstd::arithmetic::div_mod::lemma_fundamental_div_mod_converse(
            h * 60 + m,
            60,
            h as int,
            m as int,
        );
        vstd::arithmetic::div_mod::lemma_fundamental_div_mod_converse(
            h * 3600 + m * 60 + s,
            60,
            h * 60 + m,
            s as int,
        );
        lemma_digit_char(0);
        assert(three_digits(0) =~= seq!['0', '0', '0']);
        assert(text_of(v) =~= two_digits(h as int) + seq![':'] + two_digits(m as int) + seq![':']
            + two_digits(s as int) + seq![':', '0', '0', '0']);
    }
}

/// A half-open window `[from, to)` of the day.
#[derive(Debug, Copy, Clone, PartialEq, Eq, PartialOrd, Ord, Hash)]
pub struct Interval {
    pub from: Moment,
    pub to: Moment,
}

impl Interval {
    /// Creates the window between two moments, the earlier one first.
    pub fn new(t1: Moment, t2: Moment) -> (r: Interval)
        ensures
            r == (if t1@ < t2@ {
                Interval { from: t1, to: t2 }
            } else {
                Interval { from: t2, to: t1 }
            }),
            r.from@ <= r.to@,
    {
        if t1.0 < t2.0 {
            Interval { from: t1, to: t2 }
        } else {
            Interval { from: t2, to: t1 }
        }
    }

    /// Whether the window holds `t`: from `from` on, up to but not including `to`.
    pub fn contains(&self, t: Moment) -> (r: bool)
        ensures
            r == self.holds(t@),
    {
        self.from.0 <= t.0 && t.0 < self.to.0
    }

    /// Whether the window holds the moment `v` milliseconds after midnight.
    pub open spec fn holds(self, v: int) -> bool {
        self.from@ <= v < self.to@
    }
}

} // verus!
