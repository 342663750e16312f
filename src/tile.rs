use vstd::prelude::*;

verus! {

/// A tile type with a constant width in characters, for display and parsing.
pub trait DisplayWidth: Sized {
    /// Characters per tile; every verified implementation defines it.
    open spec fn width_spec() -> nat {
        arbitrary()
    }

    /// Characters per tile; never zero.
    fn display_width() -> (r: usize)
        ensures
            r == Self::width_spec(),
            r > 0,
    ;
}

/// A tile type that can be read from the characters of one tile.
pub trait ParseTile: Sized {
    /// The tile that `s` denotes, if any; every verified implementation defines it.
    open spec fn parse_spec(s: Seq<char>) -> Option<Self> {
        arbitrary()
    }

    /// Read a tile; the error describes why `s` denotes none.
    fn parse_tile(s: &[char]) -> (r: Result<Self, String>)
        ensures
            r is Ok <==> Self::parse_spec(s@) is Some,
            r matches Ok(t) ==> Self::parse_spec(s@) == Some(t),
    ;
}

/// A tile type that has a single color when rendered.
pub trait ToRgb {
    /// The tile's color; every verified implementation defines it.
    open spec fn rgb_spec(&self) -> [u8; 3] {
        arbitrary()
    }

    fn to_rgb(&self) -> (r: [u8; 3])
        ensures
            r == self.rgb_spec(),
    ;
}

/// Split `s` into chunks of `width` characters; a shorter last chunk is dropped.
pub fn chunks(s: &[char], width: usize) -> (r: Vec<Vec<char>>)
    requires
        width > 0,
    ensures
        r@.len() == (s@.len() as int) / (width as int),
        forall|i: int| 0 <= i < r@.len() ==> (#[trigger] r@[i])@ == s@.subrange(i * width, i * width + width),
{
    let mut out: Vec<Vec<char>> = Vec::new();
    let mut pos: usize = 0;
    proof {
        assert(0 * (width as int) == 0) by (nonlinear_arith);
    }
    while width <= s.len() - pos
        invariant
            width > 0,
            pos <= s@.len(),
            pos == out@.len() * width,
            forall|i: int| 0 <= i < out@.len() ==> (#[trigger] out@[i])@ == s@.subrange(i * width, i * width + width),
        decreases s@.len() - pos,
    {
        let mut chunk: Vec<char> = Vec::new();
        let mut k: usize = 0;
        assert(pos + width <= s@.len());
        while k < width
            invariant
                k <= width,
                s@.len() == s.len(),
                pos + width <= s@.len(),
                chunk@ == s@.subrange(pos as int, pos + k),
            decreases width - k,
        {
            chunk.push(s[pos + k]);
            proof {
                assert(chunk@ =~= s@.subrange(pos as int, pos + k + 1));
            }
            k += 1;
        }
        proof {
            assert((out@.len() + 1) * width == out@.len() * width + width) by (nonlinear_arith);
        }
        let ghost out0 = out@;
        out.push(chunk);
        pos = pos + width;
        proof {
            assert forall|i: int| 0 <= i < out@.len() implies (#[trigger] out@[i])@ == s@.subrange(i * width, i * width + width) by {
                if i < out0.len() {
                    assert(out@[i] == out0[i]);
                }
            }
        }
    }
    proof {
        let n = out@.len() as int;
        let w = width as int;
        assert(s@.len() - n * w < w);
        assert(n * w <= s@.len());
        vstd::arithmetic::div_mod::lemma_fundamental_div_mod_converse(s@.len() as int, w, n, s@.len() - n * w);
    }
    out
}

/// The equal-width chunks of a string, in order.
pub struct Chunks {
    parts: Vec<Vec<char>>,
}

impl Chunks {
    /// Split `s` into chunks of `width` characters; a shorter last chunk is dropped.
    pub fn new(s: &[char], width: usize) -> (r: Chunks)
        requires
            width > 0,
        ensures
            r.parts().len() == (s@.len() as int) / (width as int),
            forall|i: int| 0 <= i < r.parts().len() ==> #[trigger] r.parts()[i] == s@.subrange(i * width, i * width + width),
    {
        let parts = chunks(s, width);
        let r = Chunks { parts };
        proof {
            assert forall|i: int| 0 <= i < r.parts().len() implies #[trigger] r.parts()[i] == s@.subrange(i * width, i * width + width) by {
                assert(r.parts()[i] == r.parts@[i]@);
            }
        }
        r
    }

    /// The chunks' characters.
    pub closed spec fn parts(&self) -> Seq<Seq<char>> {
        self.parts@.map_values(|c: Vec<char>| c@)
    }

    /// The chunks, in order.
    pub fn into_vec(self) -> (r: Vec<Vec<char>>)
        ensures
            r@.map_values(|c: Vec<char>| c@) == self.parts(),
    {
        self.parts
    }
}

/// A tile which is compatible with booleans: `#` is true, `.` is false.
#[derive(Clone, Copy, Debug, PartialEq, Eq, PartialOrd, Ord, Hash, Default, Structural)]
pub enum Bool {
    True,
    #[default]
    False,
}

impl DisplayWidth for Bool {
    open spec fn width_spec() -> nat {
        1
    }

    fn display_width() -> (r: usize) {
        1
    }
}

impl ParseTile for Bool {
    open spec fn parse_spec(s: Seq<char>) -> Option<Bool> {
        if s == seq!['#'] {
            Some(Bool::True)
        } else if s == seq!['.'] {
            Some(Bool::False)
        } else {
            None
        }
    }

    fn parse_tile(s: &[char]) -> (r: Result<Bool, String>) {
        if s.len() == 1 && s[0] == '#' {
            assert(s@ =~= seq!['#']);
            Ok(Bool::True)
        } else if s.len() == 1 && s[0] == '.' {
            assert(s@ =~= seq!['.']);
            Ok(Bool::False)
        } else {
            Err("expected `#` or `.`".to_owned())
        }
    }
}

impl Bool {
    /// `true` for `True`.
    pub fn to_bool(self) -> (r: bool)
        ensures
            r == (self == Bool::True),
    {
        match self {
            Bool::True => true,
            Bool::False => false,
        }
    }

    /// `True` for `true`.
    pub fn from_bool(b: bool) -> (r: Bool)
        ensures
            r == (if b { Bool::True } else { Bool::False }),
    {
        if b {
            Bool::True
        } else {
            Bool::False
        }
    }

    /// The other value.
    pub fn not(self) -> (r: Bool)
        ensures
            r != self,
    {
        match self {
            Bool::True => Bool::False,
            Bool::False => Bool::True,
        }
    }

    /// `true` when this tile corresponds to `other`.
    pub fn eq_bool(&self, other: bool) -> (r: bool)
        ensures
            r == ((*self == Bool::True) == other),
    {
        self.to_bool() == other
    }

    /// The display text of this tile.
    pub fn to_string(&self) -> (r: String)
        ensures
            r@ == (if *self == Bool::True { seq!['#'] } else { seq!['.'] }),
    {
        proof {
            reveal_strlit("#");
            reveal_strlit(".");
        }
        match self {
            Bool::True => "#".to_owned(),
            Bool::False => ".".to_owned(),
        }
    }
}

impl std::str::FromStr for Bool {
    type Err = String;

    fn from_str(s: &str) -> Result<Bool, String> {
        let chars = crate::parse::chars_of(s);
        Bool::parse_tile(chars.as_slice())
    }
}

impl ToRgb for Bool {
    /// Warm white for `True`, black for `False`.
    open spec fn rgb_spec(&self) -> [u8; 3] {
        if *self == Bool::True {
            [253, 244, 220]
        } else {
            [0, 0, 0]
        }
    }

    fn to_rgb(&self) -> (r: [u8; 3]) {
        if self.to_bool() {
            [253, 244, 220]
        } else {
            [0, 0, 0]
        }
    }
}

/// The value of an ASCII decimal digit character.
pub open spec fn digit_value(c: char) -> int {
    c as int - '0' as int
}

pub open spec fn is_digit(c: char) -> bool {
    '0' <= c <= '9'
}

/// A tile which contains a single digit, `0..=9`.
#[derive(Clone, Copy, Debug, Default, PartialEq, Eq, PartialOrd, Ord, Hash, Structural)]
pub struct Digit(u8);

impl Digit {
    /// The tile holding `v`.
    pub closed spec fn of_value(v: u8) -> Digit {
        Digit(v)
    }

    /// A tile is determined by its value, and `of_value` holds the value it is given.
    pub proof fn lemma_value(v: u8, a: Digit, b: Digit)
        ensures
            Digit::of_value(v).value_spec() == v,
            a.value_spec() == b.value_spec() ==> a == b,
    {
    }

    /// A digit tile, when `value < 10`.
    pub fn try_from(value: u8) -> (r: Result<Digit, ()>)
        ensures
            r is Ok <==> value < 10,
            r matches Ok(d) ==> d.value_spec() == value,
    {
        if value < 10 {
            Ok(Digit(value))
        } else {
            Err(())
        }
    }

    pub closed spec fn value_spec(self) -> u8 {
        self.0
    }

    /// The digit's value.
    pub fn value(self) -> (r: u8)
        ensures
            r == self.value_spec(),
    {
        self.0
    }
}

impl DisplayWidth for Digit {
    open spec fn width_spec() -> nat {
        1
    }

    fn display_width() -> (r: usize) {
        1
    }
}

impl ParseTile for Digit {
    open spec fn parse_spec(s: Seq<char>) -> Option<Digit> {
        if s.len() == 1 && is_digit(s[0]) {
            Some(Digit::of_value(digit_value(s[0]) as u8))
        } else {
            None
        }
    }

    fn parse_tile(s: &[char]) -> (r: Result<Digit, String>) {
        if s.len() == 1 && '0' <= s[0] && s[0] <= '9' {
            Ok(Digit((s[0] as u32 - '0' as u32) as u8))
        } else {
            Err("expected one decimal digit".to_owned())
        }
    }
}

impl std::str::FromStr for Digit {
    type Err = String;

    fn from_str(s: &str) -> Result<Digit, String> {
        let chars = crate::parse::chars_of(s);
        Digit::parse_tile(chars.as_slice())
    }
}

impl ToRgb for Digit {
    /// A grey of 28 steps per unit of the digit.
    open spec fn rgb_spec(&self) -> [u8; 3] {
        let v = if self.value_spec() < 10 { (self.value_spec() * 28) as u8 } else { 255u8 };
        [v, v, v]
    }

    fn to_rgb(&self) -> (r: [u8; 3]) {
        // u8::MAX / 9
        let step: u8 = 28;
        let value = if self.0 < 10 {
            self.0 * step
        } else {
            u8::MAX
        };
        [value, value, value]
    }
}

/// A tile which contains two digits, `0..=99`, displayed as three characters: a space and
/// the value, padded with a zero.
#[derive(Clone, Copy, Debug, Default, PartialEq, Eq, PartialOrd, Ord, Hash, Structural)]
pub struct TwoDigits(u8);

impl TwoDigits {
    /// The tile holding `v`.
    pub closed spec fn of_value(v: u8) -> TwoDigits {
        TwoDigits(v)
    }

    /// A tile is determined by its value, and `of_value` holds the value it is given.
    pub proof fn lemma_value(v: u8, a: TwoDigits, b: TwoDigits)
        ensures
            TwoDigits::of_value(v).value_spec() == v,
            a.value_spec() == b.value_spec() ==> a == b,
    {
    }

    /// A two-digit tile, when `value < 100`.
    pub fn try_from(value: u8) -> (r: Result<TwoDigits, ()>)
        ensures
            r is Ok <==> value < 100,
            r matches Ok(d) ==> d.value_spec() == value,
    {
        if value < 100 {
            Ok(TwoDigits(value))
        } else {
            Err(())
        }
    }

    pub closed spec fn value_spec(self) -> u8 {
        self.0
    }

    /// The tile's value.
    pub fn value(self) -> (r: u8)
        ensures
            r == self.value_spec(),
    {
        self.0
    }
}

impl DisplayWidth for TwoDigits {
    open spec fn width_spec() -> nat {
        3
    }

    fn display_width() -> (r: usize) {
        3
    }
}

impl ParseTile for TwoDigits {
    /// One space, an optional second space, then one or two digits.
    open spec fn parse_spec(s: Seq<char>) -> Option<TwoDigits> {
        if s.len() == 2 && s[0] == ' ' && is_digit(s[1]) {
            Some(TwoDigits::of_value(digit_value(s[1]) as u8))
        } else if s.len() == 3 && s[0] == ' ' && s[1] == ' ' && is_digit(s[2]) {
            Some(TwoDigits::of_value(digit_value(s[2]) as u8))
        } else if s.len() == 3 && s[0] == ' ' && is_digit(s[1]) && is_digit(s[2]) {
            Some(TwoDigits::of_value((10 * digit_value(s[1]) + digit_value(s[2])) as u8))
        } else if s.len() == 4 && s[0] == ' ' && s[1] == ' ' && is_digit(s[2]) && is_digit(s[3]) {
            Some(TwoDigits::of_value((10 * digit_value(s[2]) + digit_value(s[3])) as u8))
        } else {
            None
        }
    }

    fn parse_tile(s: &[char]) -> (r: Result<TwoDigits, String>) {
        let n = s.len();
        if n >= 2 && n <= 4 && s[0] == ' ' {
            let start: usize = if n == 4 || (n == 3 && s[1] == ' ') {
                2
            } else {
                1
            };
            if n == 4 && s[1] != ' ' {
                return Err("expected a space and one or two decimal digits".to_owned());
            }
            let mut value: u32 = 0;
            let mut i: usize = start;
            while i < n
                invariant
                    start <= i <= n,
                    n == s@.len(),
                    n <= 4,
                    value < 100,
                    i == start ==> value == 0,
                    i == start + 1 ==> value == digit_value(s@[start as int]),
                    i == start + 2 ==> value == 10 * digit_value(s@[start as int]) + digit_value(s@[start + 1]),
                    forall|j: int| start <= j < i ==> is_digit(#[trigger] s@[j]),
                    n - start <= 2,
                    start == 1 || start == 2,
                    start == 2 ==> s@[1] == ' ',
                    n == 4 ==> start == 2,
                    n == 3 && s@[1] == ' ' ==> start == 2,
                    n == 3 && s@[1] != ' ' ==> start == 1,
                    n == 2 ==> start == 1,
                    s@[0] == ' ',
                decreases n - i,
            {
                let c = s[i];
                if c < '0' || c > '9' {
                    return Err("expected a space and one or two decimal digits".to_owned());
                }
                value = value * 10 + (c as u32 - '0' as u32);
                i += 1;
            }
            Ok(TwoDigits(value as u8))
        } else {
            Err("expected a space and one or two decimal digits".to_owned())
        }
    }
}

impl std::str::FromStr for TwoDigits {
    type Err = String;

    fn from_str(s: &str) -> Result<TwoDigits, String> {
        let chars = crate::parse::chars_of(s);
        TwoDigits::parse_tile(chars.as_slice())
    }
}

impl ToRgb for TwoDigits {
    /// A grey of 2 steps per unit of the value.
    open spec fn rgb_spec(&self) -> [u8; 3] {
        let v = if self.value_spec() < 100 { (self.value_spec() * 2) as u8 } else { 255u8 };
        [v, v, v]
    }

    fn to_rgb(&self) -> (r: [u8; 3]) {
        // u8::MAX / 99
        let step: u8 = 2;
        let value = if self.0 < 100 {
            self.0 * step
        } else {
            u8::MAX
        };
        [value, value, value]
    }
}

} // verus!
