//! The JSON values held by the store, with their mathematical model.

use vstd::prelude::*;

use crate::text::chars_of;

verus! {

/// The largest number of fractional decimal digits a [`Number`] carries.
pub const MAX_SCALE: u8 = 19;

/// `10` raised to `n`.
pub open spec fn pow10(n: nat) -> nat
    decreases n,
{
    if n == 0 {
        1
    } else {
        10 * pow10((n - 1) as nat)
    }
}

pub proof fn lemma_pow10_positive(n: nat)
    ensures
        pow10(n) >= 1,
    decreases n,
{
    if n > 0 {
        lemma_pow10_positive((n - 1) as nat);
    }
}

pub proof fn lemma_pow10_monotone(a: nat, b: nat)
    requires
        a <= b,
    ensures
        pow10(a) <= pow10(b),
    decreases b,
{
    if a < b {
        lemma_pow10_monotone(a, (b - 1) as nat);
        lemma_pow10_positive((b - 1) as nat);
    }
}

proof fn lemma_pow10_max()
    ensures
        pow10(19) == 10000000000000000000,
{
    reveal_with_fuel(pow10, 20);
}

/// A JSON number held exactly as a decimal: `(-1)^neg * mag / 10^scale`.
#[derive(Clone, Copy, Debug, PartialEq, Eq, Structural)]
pub struct Number {
    pub neg: bool,
    pub mag: u64,
    pub scale: u8,
}

/// The outcome of comparing two values.
#[derive(Clone, Copy, Debug, PartialEq, Eq, Structural)]
pub enum Cmp {
    Less,
    Equal,
    Greater,
}

impl Cmp {
    pub open spec fn flip(self) -> Cmp {
        match self {
            Cmp::Less => Cmp::Greater,
            Cmp::Equal => Cmp::Equal,
            Cmp::Greater => Cmp::Less,
        }
    }
}

/// Compares two integers.
pub open spec fn cmp_int(a: int, b: int) -> Cmp {
    if a < b {
        Cmp::Less
    } else if a == b {
        Cmp::Equal
    } else {
        Cmp::Greater
    }
}

impl Number {
    /// A number is well formed when its scale is in range and zero carries no sign.
    pub open spec fn wf(self) -> bool {
        self.scale <= MAX_SCALE && (self.mag == 0 ==> !self.neg)
    }

    /// The signed numerator over `10^scale`.
    pub open spec fn numer(self) -> int {
        if self.neg {
            -(self.mag as int)
        } else {
            self.mag as int
        }
    }

    /// The numerator brought over the common denominator `10^(self.scale + other.scale)`.
    pub open spec fn cross(self, other: Number) -> int {
        self.numer() * pow10(other.scale as nat)
    }

    /// Numeric order of the two values that the numbers denote.
    pub open spec fn cmp_spec(self, other: Number) -> Cmp {
        cmp_int(self.cross(other), other.cross(self))
    }

    /// The unsigned integer that the number is, if it is one written without a fraction.
    pub open spec fn as_id(self) -> Option<u64> {
        if self.scale == 0 && !self.neg {
            Some(self.mag)
        } else {
            None
        }
    }

    /// The number for an unsigned integer.
    pub fn from_u64(v: u64) -> (r: Number)
        ensures
            r == (Number { neg: false, mag: v, scale: 0 }),
            r.wf(),
            r.as_id() == Some(v),
    {
        Number { neg: false, mag: v, scale: 0 }
    }

    /// Compares the values that the two numbers denote.
    pub fn compare(&self, other: &Number) -> (r: Cmp)
        requires
            self.wf(),
            other.wf(),
        ensures
            r == self.cmp_spec(*other),
    {
        let pa = pow10_u128(other.scale);
        let pb = pow10_u128(self.scale);
        proof {
            lemma_pow10_positive(other.scale as nat);
            lemma_pow10_positive(self.scale as nat);
            lemma_pow10_monotone(other.scale as nat, 19);
            lemma_pow10_monotone(self.scale as nat, 19);
            lemma_pow10_max();
            lemma_cross_fits(self.mag, pa);
            lemma_cross_fits(other.mag, pb);
        }
        let a = self.mag as u128 * pa;
        let b = other.mag as u128 * pb;
        proof {
            assert(self.cross(*other) == if self.neg { -(a as int) } else { a as int }) by (nonlinear_arith)
                requires
                    a == self.mag * pa,
                    pa == pow10(other.scale as nat),
            ;
            assert(other.cross(*self) == if other.neg { -(b as int) } else { b as int }) by (nonlinear_arith)
                requires
                    b == other.mag * pb,
                    pb == pow10(self.scale as nat),
            ;
            assert(self.mag > 0 ==> a > 0) by (nonlinear_arith)
                requires a == self.mag * pa, pa >= 1;
            assert(other.mag > 0 ==> b > 0) by (nonlinear_arith)
                requires b == other.mag * pb, pb >= 1;
        }
        if self.neg && !other.neg {
            Cmp::Less
        } else if !self.neg && other.neg {
            Cmp::Greater
        } else if a == b {
            Cmp::Equal
        } else if (a < b) != self.neg {
            Cmp::Less
        } else {
            Cmp::Greater
        }
    }
}

/// Numeric order of well-formed numbers is transitive.
pub proof fn lemma_number_le_trans(a: Number, b: Number, c: Number)
    requires
        a.cmp_spec(b) != Cmp::Greater,
        b.cmp_spec(c) != Cmp::Greater,
    ensures
        a.cmp_spec(c) != Cmp::Greater,
{
    let (x, y, z) = (a.numer(), b.numer(), c.numer());
    let (pa, pb, pc) = (pow10(a.scale as nat), pow10(b.scale as nat), pow10(c.scale as nat));
    lemma_pow10_positive(a.scale as nat);
    lemma_pow10_positive(b.scale as nat);
    lemma_pow10_positive(c.scale as nat);
    assert(x * pb <= y * pa);
    assert(y * pc <= z * pb);
    assert(x * pc <= z * pa) by (nonlinear_arith)
        requires
            x * pb <= y * pa,
            y * pc <= z * pb,
            pa > 0,
            pb > 0,
            pc > 0,
    {
        assert(x * pb * pc <= y * pa * pc) by (nonlinear_arith)
            requires x * pb <= y * pa, pc > 0;
        assert(y * pc * pa <= z * pb * pa) by (nonlinear_arith)
            requires y * pc <= z * pb, pa > 0;
        assert(x * pc * pb <= z * pa * pb) by (nonlinear_arith)
            requires x * pb * pc <= y * pa * pc, y * pc * pa <= z * pb * pa;
    }
}

proof fn lemma_cross_fits(m: u64, p: u128)
    requires
        p <= 10000000000000000000,
    ensures
        m as int * p as int <= u128::MAX,
{
    assert(m as int * p as int <= 18446744073709551615 * 10000000000000000000) by (nonlinear_arith)
        requires
            m as int <= 18446744073709551615,
            p as int <= 10000000000000000000,
            p >= 0,
    ;
}

/// `10^n` as a machine integer.
fn pow10_u128(n: u8) -> (r: u128)
    requires
        n <= MAX_SCALE,
    ensures
        r as nat == pow10(n as nat),
{
    let mut r: u128 = 1;
    let mut i: u8 = 0;
    while i < n
        invariant
            i <= n <= MAX_SCALE,
            r as nat == pow10(i as nat),
        decreases n - i,
    {
        proof {
            lemma_pow10_monotone((i + 1) as nat, 19);
            lemma_pow10_max();
        }
        r = r * 10;
        i = i + 1;
    }
    r
}

/// The mathematical model of a JSON value.
pub enum Json {
    Null,
    Bool(bool),
    Num(Number),
    Str(Seq<char>),
    Arr(Seq<Json>),
    Obj(Seq<(Seq<char>, Json)>),
}

/// A JSON value. Object members are kept in order; lookups find the first
/// member with a given name.
#[derive(Debug, PartialEq)]
pub enum JsonValue {
    Null,
    Bool(bool),
    Number(Number),
    Str(String),
    Array(Vec<JsonValue>),
    Object(Vec<(String, JsonValue)>),
}

/// The model of a sequence of values.
pub open spec fn view_values(s: Seq<JsonValue>) -> Seq<Json>
    decreases s,
{
    if s.len() == 0 {
        Seq::empty()
    } else {
        seq![s[0].view()] + view_values(s.subrange(1, s.len() as int))
    }
}

/// The model of a sequence of object members.
pub open spec fn view_members(s: Seq<(String, JsonValue)>) -> Seq<(Seq<char>, Json)>
    decreases s,
{
    if s.len() == 0 {
        Seq::empty()
    } else {
        seq![(s[0].0@, s[0].1.view())] + view_members(s.subrange(1, s.len() as int))
    }
}

impl JsonValue {
    pub open spec fn view(&self) -> Json
        decreases self,
    {
        match self {
            JsonValue::Null => Json::Null,
            JsonValue::Bool(b) => Json::Bool(*b),
            JsonValue::Number(n) => Json::Num(*n),
            JsonValue::Str(s) => Json::Str(s@),
            JsonValue::Array(v) => Json::Arr(view_values(v@)),
            JsonValue::Object(m) => Json::Obj(view_members(m@)),
        }
    }
}

pub proof fn lemma_view_values(s: Seq<JsonValue>)
    ensures
        view_values(s).len() == s.len(),
        forall|i: int| 0 <= i < s.len() ==> #[trigger] view_values(s)[i] == s[i]@,
    decreases s.len(),
{
    if s.len() > 0 {
        lemma_view_values(s.subrange(1, s.len() as int));
    }
}

pub proof fn lemma_view_members(s: Seq<(String, JsonValue)>)
    ensures
        view_members(s).len() == s.len(),
        forall|i: int|
            0 <= i < s.len() ==> #[trigger] view_members(s)[i] == (s[i].0@, s[i].1@),
    decreases s.len(),
{
    if s.len() > 0 {
        lemma_view_members(s.subrange(1, s.len() as int));
    }
}

/// The value of the first member named `k`, if any.
pub open spec fn member(m: Seq<(Seq<char>, Json)>, k: Seq<char>) -> Option<Json>
    decreases m.len(),
{
    if m.len() == 0 {
        None
    } else if m[0].0 == k {
        Some(m[0].1)
    } else {
        member(m.subrange(1, m.len() as int), k)
    }
}

/// The index of the first member named `k`, if any.
pub open spec fn member_index(m: Seq<(Seq<char>, Json)>, k: Seq<char>) -> Option<int>
    decreases m.len(),
{
    if m.len() == 0 {
        None
    } else if m[0].0 == k {
        Some(0)
    } else {
        match member_index(m.subrange(1, m.len() as int), k) {
            Some(i) => Some(i + 1),
            None => None,
        }
    }
}

/// `member_index` is the first index that holds the name.
pub proof fn lemma_member_index(m: Seq<(Seq<char>, Json)>, k: Seq<char>, i: int)
    requires
        0 <= i <= m.len(),
        forall|j: int| 0 <= j < i ==> m[j].0 != k,
    ensures
        i < m.len() && m[i].0 == k ==> member_index(m, k) == Some(i) && member(m, k) == Some(
            m[i].1,
        ),
        i == m.len() ==> member_index(m, k) is None && member(m, k) is None,
    decreases i,
{
    if i > 0 {
        let t = m.subrange(1, m.len() as int);
        assert forall|j: int| 0 <= j < i - 1 implies t[j].0 != k by {
            assert(t[j] == m[j + 1]);
        }
        lemma_member_index(t, k, i - 1);
    }
}

/// The index and the value of the first member named `k` agree.
pub proof fn lemma_member_found(m: Seq<(Seq<char>, Json)>, k: Seq<char>)
    ensures
        member_index(m, k) is None <==> member(m, k) is None,
        member_index(m, k) matches Some(i) ==> 0 <= i < m.len() && m[i].0 == k && member(m, k)
            == Some(m[i].1) && forall|j: int| 0 <= j < i ==> m[j].0 != k,
        member_index(m, k) is None ==> forall|j: int| 0 <= j < m.len() ==> m[j].0 != k,
    decreases m.len(),
{
    if m.len() > 0 && m[0].0 != k {
        let t = m.subrange(1, m.len() as int);
        lemma_member_found(t, k);
        assert forall|j: int| 0 < j < m.len() implies m[j] == t[j - 1] by {}
        if let Some(i) = member_index(t, k) {
            assert forall|j: int| 0 <= j < i + 1 implies m[j].0 != k by {
                if j > 0 {
                    assert(m[j] == t[j - 1]);
                }
            }
        }
    }
}

/// Finds the first member of `m` named `k`.
pub fn find_member(m: &Vec<(String, JsonValue)>, k: &str) -> (r: Option<usize>)
    ensures
        r matches Some(i) ==> member_index(view_members(m@), k@) == Some(i as int) && i < m@.len(),
        r is None ==> member_index(view_members(m@), k@) is None,
{
    proof {
        lemma_view_members(m@);
    }
    let mut i: usize = 0;
    while i < m.len()
        invariant
            0 <= i <= m@.len(),
            view_members(m@).len() == m@.len(),
            forall|j: int|
                0 <= j < m@.len() ==> #[trigger] view_members(m@)[j] == (m@[j].0@, m@[j].1@),
            forall|j: int| 0 <= j < i ==> view_members(m@)[j].0 != k@,
        decreases m.len() - i,
    {
        assert(view_members(m@)[i as int].0 == m@[i as int].0@);
        if crate::text::str_eq(m[i].0.as_str(), k) {
            proof {
                lemma_member_index(view_members(m@), k@, i as int);
            }
            return Some(i);
        }
        i = i + 1;
    }
    proof {
        lemma_member_index(view_members(m@), k@, i as int);
    }
    None
}

/// Looks up the first member of `m` named `k`.
pub fn get_member<'a>(m: &'a Vec<(String, JsonValue)>, k: &str) -> (r: Option<&'a JsonValue>)
    ensures
        r matches Some(v) ==> member(view_members(m@), k@) == Some(v@),
        r is None ==> member(view_members(m@), k@) is None,
{
    proof {
        lemma_view_members(m@);
        lemma_member_found(view_members(m@), k@);
    }
    match find_member(m, k) {
        Some(i) => Some(&m[i].1),
        None => None,
    }
}

pub proof fn lemma_view_values_insert(s: Seq<JsonValue>, i: int, x: JsonValue)
    requires
        0 <= i <= s.len(),
    ensures
        view_values(s.insert(i, x)) == view_values(s).insert(i, x@),
{
    lemma_view_values(s);
    lemma_view_values(s.insert(i, x));
    assert(view_values(s.insert(i, x)) =~= view_values(s).insert(i, x@));
}

pub proof fn lemma_view_values_remove(s: Seq<JsonValue>, i: int)
    requires
        0 <= i < s.len(),
    ensures
        view_values(s.remove(i)) == view_values(s).remove(i),
{
    lemma_view_values(s);
    lemma_view_values(s.remove(i));
    assert(view_values(s.remove(i)) =~= view_values(s).remove(i));
}

pub proof fn lemma_view_values_push(s: Seq<JsonValue>, x: JsonValue)
    ensures
        view_values(s.push(x)) == view_values(s).push(x@),
{
    lemma_view_values(s);
    lemma_view_values(s.push(x));
    assert(view_values(s.push(x)) =~= view_values(s).push(x@));
}

pub proof fn lemma_view_values_update(s: Seq<JsonValue>, i: int, x: JsonValue)
    requires
        0 <= i < s.len(),
    ensures
        view_values(s.update(i, x)) == view_values(s).update(i, x@),
{
    lemma_view_values(s);
    lemma_view_values(s.update(i, x));
    assert(view_values(s.update(i, x)) =~= view_values(s).update(i, x@));
}

pub proof fn lemma_view_members_push(s: Seq<(String, JsonValue)>, x: (String, JsonValue))
    ensures
        view_members(s.push(x)) == view_members(s).push((x.0@, x.1@)),
{
    lemma_view_members(s);
    lemma_view_members(s.push(x));
    assert(view_members(s.push(x)) =~= view_members(s).push((x.0@, x.1@)));
}

pub proof fn lemma_view_members_update(s: Seq<(String, JsonValue)>, i: int, x: (String, JsonValue))
    requires
        0 <= i < s.len(),
    ensures
        view_members(s.update(i, x)) == view_members(s).update(i, (x.0@, x.1@)),
{
    lemma_view_members(s);
    lemma_view_members(s.update(i, x));
    assert(view_members(s.update(i, x)) =~= view_members(s).update(i, (x.0@, x.1@)));
}

impl JsonValue {
    /// A copy of the value that shares nothing with it.
    pub fn deep_copy(&self) -> (r: JsonValue)
        ensures
            r@ == self@,
        decreases self,
    {
        match self {
            JsonValue::Null => JsonValue::Null,
            JsonValue::Bool(b) => JsonValue::Bool(*b),
            JsonValue::Number(n) => JsonValue::Number(*n),
            JsonValue::Str(s) => JsonValue::Str(s.clone()),
            JsonValue::Array(v) => JsonValue::Array(copy_values(v)),
            JsonValue::Object(m) => JsonValue::Object(copy_members(m)),
        }
    }
}

/// A copy of a sequence of values.
pub fn copy_values(v: &Vec<JsonValue>) -> (r: Vec<JsonValue>)
    ensures
        view_values(r@) == view_values(v@),
    decreases v,
{
    let mut r: Vec<JsonValue> = Vec::new();
    let mut i: usize = 0;
    while i < v.len()
        invariant
            0 <= i <= v@.len(),
            r@.len() == i,
            forall|j: int| 0 <= j < i ==> r@[j]@ == v@[j]@,
        decreases v.len() - i,
    {
        proof {
            assert(decreases_to!(v => v@[i as int]));
        }
        let c = v[i].deep_copy();
        r.push(c);
        i = i + 1;
    }
    proof {
        lemma_view_values(r@);
        lemma_view_values(v@);
        assert(view_values(r@) =~= view_values(v@));
    }
    r
}

/// A copy of a sequence of object members.
pub fn copy_members(m: &Vec<(String, JsonValue)>) -> (r: Vec<(String, JsonValue)>)
    ensures
        view_members(r@) == view_members(m@),
    decreases m,
{
    let mut r: Vec<(String, JsonValue)> = Vec::new();
    let mut i: usize = 0;
    while i < m.len()
        invariant
            0 <= i <= m@.len(),
            r@.len() == i,
            forall|j: int| 0 <= j < i ==> r@[j].0@ == m@[j].0@ && r@[j].1@ == m@[j].1@,
        decreases m.len() - i,
    {
        proof {
            assert(decreases_to!(m => m@[i as int]));
            assert(decreases_to!(m@[i as int] => m@[i as int].1));
        }
        let c = m[i].1.deep_copy();
        r.push((m[i].0.clone(), c));
        i = i + 1;
    }
    proof {
        lemma_view_members(r@);
        lemma_view_members(m@);
        assert(view_members(r@) =~= view_members(m@));
    }
    r
}

/// Whether `c` is one of the ASCII digits.
pub open spec fn is_digit(c: char) -> bool {
    '0' <= c <= '9'
}

pub open spec fn all_digits(s: Seq<char>) -> bool {
    forall|i: int| 0 <= i < s.len() ==> is_digit(#[trigger] s[i])
}

/// The value of a string of decimal digits.
pub open spec fn digits_val(s: Seq<char>) -> nat
    decreases s.len(),
{
    if s.len() == 0 {
        0
    } else {
        10 * digits_val(s.drop_last()) + (s.last() as u32 - 48) as nat
    }
}

/// The number of leading digits of `s`.
pub open spec fn digit_run(s: Seq<char>) -> nat
    decreases s.len(),
{
    if s.len() > 0 && is_digit(s[0]) {
        1 + digit_run(s.drop_first())
    } else {
        0
    }
}

/// The number written by integer digits `ip` and fraction digits `fp`, if it is in range.
pub open spec fn make_decimal(neg: bool, ip: Seq<char>, fp: Seq<char>) -> Option<Number> {
    let m = digits_val(ip + fp);
    if m <= u64::MAX && fp.len() <= MAX_SCALE {
        Some(Number { neg: neg && m != 0, mag: m as u64, scale: fp.len() as u8 })
    } else {
        None
    }
}

/// The number that a text writes as an optional `-`, one or more digits, and
/// optionally a `.` followed by one or more digits; `None` for any other text
/// or a number out of range.
pub open spec fn decimal_of(s: Seq<char>) -> Option<Number> {
    let neg = s.len() > 0 && s[0] == '-';
    let body = if neg {
        s.drop_first()
    } else {
        s
    };
    let n = digit_run(body);
    let ip = body.subrange(0, n as int);
    let rest = body.subrange(n as int, body.len() as int);
    if n == 0 {
        None
    } else if rest.len() == 0 {
        make_decimal(neg, ip, Seq::empty())
    } else if rest[0] == '.' && rest.len() >= 2 && all_digits(rest.drop_first()) {
        make_decimal(neg, ip, rest.drop_first())
    } else {
        None
    }
}

proof fn lemma_digit_run(s: Seq<char>, i: int)
    requires
        0 <= i <= s.len(),
        all_digits(s.subrange(0, i)),
        i == s.len() || !is_digit(s[i]),
    ensures
        digit_run(s) == i,
    decreases i,
{
    if i > 0 {
        assert(s.subrange(0, i)[0] == s[0]);
        let t = s.drop_first();
        assert forall|j: int| 0 <= j < i - 1 implies is_digit(#[trigger] t.subrange(0, i - 1)[j]) by {
            assert(t.subrange(0, i - 1)[j] == s.subrange(0, i)[j + 1]);
        }
        if i < s.len() {
            assert(t[i - 1] == s[i]);
        }
        lemma_digit_run(t, i - 1);
    }
}

proof fn lemma_digits_grow(a: Seq<char>, b: Seq<char>)
    ensures
        digits_val(a + b) >= digits_val(a),
    decreases b.len(),
{
    if b.len() > 0 {
        assert((a + b).drop_last() =~= a + b.drop_last());
        lemma_digits_grow(a, b.drop_last());
    }
}

proof fn lemma_digits_push(a: Seq<char>, c: char)
    ensures
        digits_val(a.push(c)) == 10 * digits_val(a) + ((c as u32) - 48) as nat,
{
    assert(a.push(c).drop_last() =~= a);
}

impl Number {
    /// Whether the number is well formed.
    pub fn is_wf(&self) -> (r: bool)
        ensures
            r == self.wf(),
    {
        self.scale <= MAX_SCALE && (self.mag != 0 || !self.neg)
    }

    /// Reads a decimal number: an optional `-`, one or more digits, and
    /// optionally a `.` followed by one or more digits.
    #[verifier::rlimit(40)]
    fn parse_decimal(s: &str) -> (r: Option<Number>)
        ensures
            r == decimal_of(s@),
            r matches Some(n) ==> n.wf(),
    {
        let c = chars_of(s);
        let len = c.len();
        let neg = len > 0 && c[0] == '-';
        let start: usize = if neg { 1 } else { 0 };
        let ghost body = if neg { s@.drop_first() } else { s@ };
        assert(body =~= c@.subrange(start as int, len as int));
        let mut mag: u64 = 0;
        let mut i: usize = start;
        while i < len && is_digit_char(c[i])
            invariant
                c@ == s@,
                len == c@.len(),
                start <= i <= len,
                start == (if neg { 1usize } else { 0usize }),
                neg == (s@.len() > 0 && s@[0] == '-'),
                body == (if neg { s@.drop_first() } else { s@ }),
                body == c@.subrange(start as int, len as int),
                all_digits(c@.subrange(start as int, i as int)),
                mag as nat == digits_val(c@.subrange(start as int, i as int)),
            decreases len - i,
        {
            let d = (c[i] as u32 - 48) as u64;
            proof {
                lemma_digits_push(c@.subrange(start as int, i as int), c@[i as int]);
                assert(c@.subrange(start as int, i as int).push(c@[i as int]) =~= c@.subrange(
                    start as int,
                    i + 1,
                ));
            }
            if mag > (u64::MAX - d) / 10 {
                proof {
                    let a = c@.subrange(start as int, i + 1);
                    assert(body.subrange(0, i + 1 - start) =~= a);
                    assert(all_digits(a));
                    assert(digits_val(a) > u64::MAX) by (nonlinear_arith)
                        requires
                            digits_val(a) == 10 * mag + d,
                            mag > (u64::MAX - d) / 10,
                            d <= 9,
                    ;
                    lemma_no_decimal(s@, neg, body, (i + 1 - start) as int);
                }
                return None;
            }
            mag = mag * 10 + d;
            i = i + 1;
        }
        let ghost n = (i - start) as int;
        proof {
            assert(c@.subrange(start as int, i as int) =~= body.subrange(0, n));
            lemma_digit_run(body, n);
        }
        if i == start {
            return None;
        }
        if i == len {
            proof {
                assert(body.subrange(0, n) + Seq::<char>::empty() =~= body.subrange(0, n));
            }
            return Some(Number { neg: neg && mag != 0, mag, scale: 0 });
        }
        if c[i] != '.' || i + 1 == len {
            return None;
        }
        let dot = i;
        i = i + 1;
        let mut scale: u8 = 0;
        let ghost ip = body.subrange(0, n);
        while i < len
            invariant
                c@ == s@,
                len == c@.len(),
                dot < i <= len,
                start <= dot,
                n == dot - start,
                digit_run(body) == n,
                neg == (s@.len() > 0 && s@[0] == '-'),
                body == (if neg { s@.drop_first() } else { s@ }),
                c@[dot as int] == '.',
                ip == c@.subrange(start as int, dot as int),
                ip == body.subrange(0, n),
                body == c@.subrange(start as int, len as int),
                scale as int == i - dot - 1,
                scale <= MAX_SCALE,
                all_digits(c@.subrange(dot + 1, i as int)),
                mag as nat == digits_val(ip + c@.subrange(dot + 1, i as int)),
            decreases len - i,
        {
            if !is_digit_char(c[i]) {
                proof {
                    let rest = body.subrange(n, body.len() as int);
                    assert(rest.drop_first()[i - dot - 1] == c@[i as int]);
                    assert(!all_digits(rest.drop_first()));
                }
                return None;
            }
            let d = (c[i] as u32 - 48) as u64;
            proof {
                lemma_digits_push(ip + c@.subrange(dot + 1, i as int), c@[i as int]);
                assert((ip + c@.subrange(dot + 1, i as int)).push(c@[i as int]) =~= ip
                    + c@.subrange(dot + 1, i + 1));
            }
            if mag > (u64::MAX - d) / 10 || scale == MAX_SCALE {
                proof {
                    let a = ip + c@.subrange(dot + 1, i + 1);
                    let rest = body.subrange(n, body.len() as int);
                    let fp = rest.drop_first();
                    assert(fp =~= c@.subrange(dot + 1, len as int));
                    assert(ip + fp =~= a + c@.subrange(i + 1, len as int));
                    lemma_digits_grow(a, c@.subrange(i + 1, len as int));
                    if mag > (u64::MAX - d) / 10 {
                        assert(digits_val(a) > u64::MAX) by (nonlinear_arith)
                            requires
                                digits_val(a) == 10 * mag + d,
                                mag > (u64::MAX - d) / 10,
                                d <= 9,
                        ;
                    }
                }
                return None;
            }
            mag = mag * 10 + d;
            scale = scale + 1;
            i = i + 1;
        }
        proof {
            let rest = body.subrange(n, body.len() as int);
            assert(rest.drop_first() =~= c@.subrange(dot + 1, len as int));
        }
        Some(Number { neg: neg && mag != 0, mag, scale })
    }
}

/// The integer digits of a number exceed the range: no text that starts so is a number in range.
proof fn lemma_no_decimal(s: Seq<char>, neg: bool, body: Seq<char>, k: int)
    requires
        neg == (s.len() > 0 && s[0] == '-'),
        body == (if neg { s.drop_first() } else { s }),
        0 < k <= body.len(),
        all_digits(body.subrange(0, k)),
        digits_val(body.subrange(0, k)) > u64::MAX,
    ensures
        decimal_of(s) is None,
{
    let n = digit_run(body) as int;
    lemma_digit_run_at_least(body, k);
    let ip = body.subrange(0, n);
    let rest = body.subrange(n, body.len() as int);
    assert(ip =~= body.subrange(0, k) + body.subrange(k, n));
    lemma_digits_grow(body.subrange(0, k), body.subrange(k, n));
    lemma_digits_grow(ip, rest.drop_first());
    lemma_digits_grow(ip, Seq::empty());
}

proof fn lemma_digit_run_at_least(s: Seq<char>, k: int)
    requires
        0 <= k <= s.len(),
        all_digits(s.subrange(0, k)),
    ensures
        k <= digit_run(s) <= s.len(),
    decreases s.len(),
{
    if s.len() > 0 && is_digit(s[0]) {
        let t = s.drop_first();
        if k > 0 {
            assert forall|j: int| 0 <= j < k - 1 implies is_digit(#[trigger] t.subrange(0, k - 1)[j]) by {
                assert(t.subrange(0, k - 1)[j] == s.subrange(0, k)[j + 1]);
            }
            lemma_digit_run_at_least(t, k - 1);
        } else {
            lemma_digit_run_at_least(t, 0);
        }
    } else if k > 0 {
        assert(s.subrange(0, k)[0] == s[0]);
    }
}

/// Whether `c` is one of the ASCII digits.
pub fn is_digit_char(c: char) -> (r: bool)
    ensures
        r == is_digit(c),
{
    let u = c as u32;
    48 <= u && u <= 57
}

/// The largest exponent magnitude that a number's text may carry.
pub const MAX_EXPONENT: u64 = 400;

/// Whether `c` starts the exponent of a number.
pub open spec fn is_exp_mark(c: char) -> bool {
    c == 'e' || c == 'E'
}

/// The number of characters of `s` before its first exponent mark.
pub open spec fn mark_run(s: Seq<char>) -> nat
    decreases s.len(),
{
    if s.len() > 0 && !is_exp_mark(s[0]) {
        1 + mark_run(s.drop_first())
    } else {
        0
    }
}

/// The exponent that a text writes: an optional sign and one or more digits,
/// at most `MAX_EXPONENT` in magnitude.
pub open spec fn exponent_of(t: Seq<char>) -> Option<int> {
    let neg = t.len() > 0 && t[0] == '-';
    let signed = t.len() > 0 && (t[0] == '-' || t[0] == '+');
    let d = if signed {
        t.drop_first()
    } else {
        t
    };
    if d.len() > 0 && all_digits(d) && digits_val(d) <= MAX_EXPONENT {
        Some(
            if neg {
                -(digits_val(d) as int)
            } else {
                digits_val(d) as int
            },
        )
    } else {
        None
    }
}

/// The number `m * 10^x`, if it is in range.
pub open spec fn scaled(m: Number, x: int) -> Option<Number> {
    let s = m.scale as int - x;
    if s >= 0 {
        if s <= MAX_SCALE {
            Some(Number { neg: m.neg, mag: m.mag, scale: s as u8 })
        } else {
            None
        }
    } else {
        let v = m.mag * pow10((-s) as nat);
        if v <= u64::MAX {
            Some(Number { neg: m.neg, mag: v as u64, scale: 0 })
        } else {
            None
        }
    }
}

/// The number that a text writes: a decimal as `decimal_of` reads it,
/// optionally followed by `e` or `E` and an exponent; `None` for any other
/// text or a number out of range.
pub open spec fn number_of(s: Seq<char>) -> Option<Number> {
    let i = mark_run(s) as int;
    if i == s.len() {
        decimal_of(s)
    } else {
        match (decimal_of(s.subrange(0, i)), exponent_of(s.subrange(i + 1, s.len() as int))) {
            (Some(m), Some(x)) => scaled(m, x),
            _ => None,
        }
    }
}

proof fn lemma_mark_run(s: Seq<char>, i: int)
    requires
        0 <= i <= s.len(),
        forall|j: int| 0 <= j < i ==> !is_exp_mark(#[trigger] s[j]),
        i == s.len() || is_exp_mark(s[i]),
    ensures
        mark_run(s) == i,
    decreases i,
{
    if i > 0 {
        let t = s.drop_first();
        assert forall|j: int| 0 <= j < i - 1 implies !is_exp_mark(#[trigger] t[j]) by {
            assert(t[j] == s[j + 1]);
        }
        lemma_mark_run(t, i - 1);
    }
}

/// Reads an exponent.
fn parse_exponent(t: &str) -> (r: Option<i64>)
    ensures
        r matches Some(x) ==> exponent_of(t@) == Some(x as int),
        r is None ==> exponent_of(t@) is None,
{
    let c = chars_of(t);
    let len = c.len();
    let neg = len > 0 && c[0] == '-';
    let signed = len > 0 && (c[0] == '-' || c[0] == '+');
    let start: usize = if signed { 1 } else { 0 };
    let ghost d = if signed { t@.drop_first() } else { t@ };
    assert(d =~= c@.subrange(start as int, len as int));
    if start == len {
        return None;
    }
    let mut v: u64 = 0;
    let mut i: usize = start;
    while i < len
        invariant
            c@ == t@,
            len == c@.len(),
            start < len,
            start <= i <= len,
            start == (if signed { 1usize } else { 0usize }),
            neg == (t@.len() > 0 && t@[0] == '-'),
            signed == (t@.len() > 0 && (t@[0] == '-' || t@[0] == '+')),
            d == (if signed { t@.drop_first() } else { t@ }),
            d == c@.subrange(start as int, len as int),
            all_digits(c@.subrange(start as int, i as int)),
            v as nat == digits_val(c@.subrange(start as int, i as int)),
            v <= MAX_EXPONENT,
        decreases len - i,
    {
        if !is_digit_char(c[i]) {
            assert(d[i - start] == c@[i as int]);
            assert(!all_digits(d));
            return None;
        }
        proof {
            lemma_digits_push(c@.subrange(start as int, i as int), c@[i as int]);
            assert(c@.subrange(start as int, i as int).push(c@[i as int]) =~= c@.subrange(
                start as int,
                i + 1,
            ));
        }
        v = v * 10 + (c[i] as u32 - 48) as u64;
        if v > MAX_EXPONENT {
            proof {
                let a = c@.subrange(start as int, i + 1);
                assert(d =~= a + c@.subrange(i + 1, len as int));
                lemma_digits_grow(a, c@.subrange(i + 1, len as int));
            }
            return None;
        }
        i = i + 1;
    }
    assert(c@.subrange(start as int, len as int) =~= d);
    if neg {
        Some(-(v as i64))
    } else {
        Some(v as i64)
    }
}

/// `m * 10^x`, if it is in range.
fn scale_by(m: Number, x: i64) -> (r: Option<Number>)
    requires
        m.wf(),
        -(MAX_EXPONENT as int) <= x <= MAX_EXPONENT,
    ensures
        r == scaled(m, x as int),
        r matches Some(n) ==> n.wf(),
{
    let s: i64 = m.scale as i64 - x;
    if s >= 0 {
        if s <= MAX_SCALE as i64 {
            return Some(Number { neg: m.neg, mag: m.mag, scale: s as u8 });
        }
        return None;
    }
    let k: i64 = -s;
    let mut acc: u64 = m.mag;
    let mut j: i64 = 0;
    while j < k
        invariant
            0 <= j <= k,
            k == -(m.scale as int - x),
            acc as nat == m.mag * pow10(j as nat),
        decreases k - j,
    {
        if acc > u64::MAX / 10 {
            proof {
                lemma_pow10_monotone((j + 1) as nat, k as nat);
                let p1 = pow10((j + 1) as nat);
                let pk = pow10(k as nat);
                assert(p1 == 10 * pow10(j as nat));
                assert(m.mag * pk >= m.mag * p1) by (nonlinear_arith)
                    requires pk >= p1, m.mag >= 0;
                assert(m.mag * p1 == 10 * acc) by (nonlinear_arith)
                    requires p1 == 10 * pow10(j as nat), acc == m.mag * pow10(j as nat);
            }
            return None;
        }
        proof {
            assert(m.mag * pow10((j + 1) as nat) == 10 * acc) by (nonlinear_arith)
                requires
                    pow10((j + 1) as nat) == 10 * pow10(j as nat),
                    acc == m.mag * pow10(j as nat),
            ;
        }
        acc = acc * 10;
        j = j + 1;
    }
    proof {
        lemma_pow10_positive(k as nat);
        if m.mag > 0 {
            assert(acc > 0) by (nonlinear_arith)
                requires acc == m.mag * pow10(k as nat), m.mag > 0, pow10(k as nat) >= 1;
        } else {
            assert(acc == 0) by (nonlinear_arith)
                requires acc == m.mag * pow10(k as nat), m.mag == 0;
        }
    }
    Some(Number { neg: m.neg, mag: acc, scale: 0 })
}

impl Number {
    /// Reads a number: an optional `-`, one or more digits, optionally a `.`
    /// followed by one or more digits, and optionally `e` or `E` followed by
    /// an optionally signed exponent.
    pub fn parse(s: &str) -> (r: Option<Number>)
        ensures
            r == number_of(s@),
            r matches Some(n) ==> n.wf(),
    {
        let c = chars_of(s);
        let len = c.len();
        let mut i: usize = 0;
        while i < len && c[i] != 'e' && c[i] != 'E'
            invariant
                c@ == s@,
                len == c@.len(),
                0 <= i <= len,
                forall|j: int| 0 <= j < i ==> !is_exp_mark(#[trigger] c@[j]),
            decreases len - i,
        {
            i = i + 1;
        }
        proof {
            lemma_mark_run(s@, i as int);
        }
        if i == len {
            return Number::parse_decimal(s);
        }
        let m = Number::parse_decimal(s.substring_char(0, i));
        let x = parse_exponent(s.substring_char(i + 1, len));
        match (m, x) {
            (Some(m), Some(x)) => scale_by(m, x),
            _ => None,
        }
    }
}

} // verus!
