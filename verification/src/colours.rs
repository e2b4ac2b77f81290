use vstd::prelude::*;
use vstd::string::*;

verus! {

/// The upper-case hexadecimal digit for `n` (`0 <= n < 16`).
pub open spec fn hex_digit(n: int) -> char
    recommends
        0 <= n < 16,
{
    if n < 10 {
        (48 + n) as char
    } else {
        (55 + n) as char
    }
}

/// The two upper-case hexadecimal digits of a byte, most significant first.
pub open spec fn byte_hex(b: u8) -> Seq<char> {
    seq![hex_digit(b as int / 16), hex_digit(b as int % 16)]
}

/// An sRGB colour.
#[derive(Clone, Copy, Debug, PartialEq, Eq, Structural)]
pub struct Colour {
    red: u8,
    green: u8,
    blue: u8,
}

impl Colour {
    /// The red, green and blue channels.
    pub closed spec fn rgb(self) -> (u8, u8, u8) {
        (self.red, self.green, self.blue)
    }

    /// The CSS notation `#RRGGBB` of a colour.
    pub open spec fn css(self) -> Seq<char> {
        seq!['#'] + byte_hex(self.rgb().0) + byte_hex(self.rgb().1) + byte_hex(self.rgb().2)
    }

    pub fn new(red: u8, green: u8, blue: u8) -> (colour: Colour)
        ensures
            colour.rgb() == (red, green, blue),
    {
        Colour { red, green, blue }
    }

    /// Formats the colour as `#RRGGBB` with upper-case hexadecimal digits.
    pub fn to_string(&self) -> (s: String)
        ensures
            s@ == self.css(),
    {
        let mut s = String::from_str("#");
        proof {
            reveal_strlit("#");
        }
        push_byte_hex(&mut s, self.red);
        push_byte_hex(&mut s, self.green);
        push_byte_hex(&mut s, self.blue);
        assert(s@ =~= self.css());
        s
    }
}

/// Appends the two hexadecimal digits of `b` to `s`.
fn push_byte_hex(s: &mut String, b: u8)
    ensures
        final(s)@ == old(s)@ + byte_hex(b),
{
    let digits = "0123456789ABCDEF";
    proof {
        reveal_strlit("0123456789ABCDEF");
        assert forall|i: int| 0 <= i < 16 implies #[trigger] digits@[i] == hex_digit(i) by {}
        assert(is_ascii(digits));
    }
    let high: usize = (b / 16) as usize;
    let low: usize = (b % 16) as usize;
    s.append(digits.substring_ascii(high, high + 1));
    s.append(digits.substring_ascii(low, low + 1));
}

/// An ordered list of colours that chart series take in turn.
#[derive(Clone, Debug, PartialEq)]
pub struct ColourScheme {
    swatches: Vec<Colour>,
}

impl ColourScheme {
    /// The colours of the scheme, in order.
    pub closed spec fn swatches(self) -> Seq<Colour> {
        self.swatches@
    }

    /// The colour that the scheme gives to `index`: the swatches repeat once
    /// they run out.
    pub open spec fn colour_at(self, index: int) -> Colour
        recommends
            self.swatches().len() > 0,
    {
        self.swatches()[index % self.swatches().len() as int]
    }

    pub fn new(swatches: Vec<Colour>) -> (scheme: Self)
        ensures
            scheme.swatches() == swatches@,
    {
        ColourScheme { swatches }
    }

    /// A scheme made of a copy of `colours`.
    pub fn from_colours(colours: &[Colour]) -> (scheme: Self)
        ensures
            scheme.swatches() == colours@,
    {
        Self::new(vstd::slice::slice_to_vec(colours))
    }

    /// The number of swatches.
    pub fn len(&self) -> (n: usize)
        ensures
            n == self.swatches().len(),
    {
        self.swatches.len()
    }

    /// The colour for the `index`-th item: the swatch at `index` modulo the
    /// number of swatches.
    pub fn by_index(&self, index: usize) -> (colour: Colour)
        requires
            self.swatches().len() > 0,
        ensures
            colour == self.colour_at(index as int),
    {
        let index = index % self.swatches.len();
        self.swatches[index]
    }
}

impl Colour {
    /// The colour to show: `colour` where one was chosen, else the scheme's
    /// colour for `index`.
    pub fn signal_option(colour: Option<Colour>, layout: &ColourScheme, index: usize) -> (c: Colour)
        requires
            colour is None ==> layout.swatches().len() > 0,
        ensures
            c == match colour {
                Some(chosen) => chosen,
                None => layout.colour_at(index as int),
            },
    {
        match colour {
            Some(chosen) => chosen,
            None => layout.by_index(index),
        }
    }
}

/// The channels of a sequence of colours.
pub open spec fn channels(colours: Seq<Colour>) -> Seq<(u8, u8, u8)> {
    colours.map_values(|c: Colour| c.rgb())
}

/// Greys for layout elements: light, lighter and lightest.
pub fn grey_layout() -> (colours: [Colour; 3])
    ensures
        channels(colours@) == seq![(0x9Au8, 0x9Au8, 0x9Au8), (0xD2u8, 0xD2u8, 0xD2u8), (0xEFu8, 0xF2u8, 0xFAu8)],
{
    let colours = [
        Colour::new(0x9A, 0x9A, 0x9A),
        Colour::new(0xD2, 0xD2, 0xD2),
        Colour::new(0xEF, 0xF2, 0xFA),
    ];
    assert(channels(colours@) =~= seq![(0x9Au8, 0x9Au8, 0x9Au8), (0xD2u8, 0xD2u8, 0xD2u8), (0xEFu8, 0xF2u8, 0xFAu8)]);
    colours
}

/// Arbitrary colours for a brighter palette: blue, red, green, orange, purple,
/// magenta, darker green, yellow, turquoise and pink.
pub fn arbitrary() -> (colours: [Colour; 10])
    ensures
        channels(colours@) == seq![
            (0x12u8, 0xA5u8, 0xEDu8),
            (0xF5u8, 0x32u8, 0x5Bu8),
            (0x71u8, 0xC6u8, 0x14u8),
            (0xFFu8, 0x84u8, 0x00u8),
            (0x7Bu8, 0x4Du8, 0xFFu8),
            (0xDBu8, 0x4Cu8, 0xB2u8),
            (0x92u8, 0xB4u8, 0x2Cu8),
            (0xFFu8, 0xCAu8, 0x00u8),
            (0x22u8, 0xD2u8, 0xBAu8),
            (0xEAu8, 0x60u8, 0xDFu8),
        ],
{
    let colours = [
        Colour::new(0x12, 0xA5, 0xED),
        Colour::new(0xF5, 0x32, 0x5B),
        Colour::new(0x71, 0xc6, 0x14),
        Colour::new(0xFF, 0x84, 0x00),
        Colour::new(0x7b, 0x4d, 0xff),
        Colour::new(0xdb, 0x4c, 0xb2),
        Colour::new(0x92, 0xb4, 0x2c),
        Colour::new(0xFF, 0xCA, 0x00),
        Colour::new(0x22, 0xd2, 0xba),
        Colour::new(0xea, 0x60, 0xdf),
    ];
    assert(channels(colours@) =~= seq![
        (0x12u8, 0xA5u8, 0xEDu8),
        (0xF5u8, 0x32u8, 0x5Bu8),
        (0x71u8, 0xC6u8, 0x14u8),
        (0xFFu8, 0x84u8, 0x00u8),
        (0x7Bu8, 0x4Du8, 0xFFu8),
        (0xDBu8, 0x4Cu8, 0xB2u8),
        (0x92u8, 0xB4u8, 0x2Cu8),
        (0xFFu8, 0xCAu8, 0x00u8),
        (0x22u8, 0xD2u8, 0xBAu8),
        (0xEAu8, 0x60u8, 0xDFu8),
    ]);
    colours
}

/// A scheme hands out its swatches in order and then starts again: the colour
/// for `index` is the same as for `index` plus the number of swatches, and the
/// first swatches go to the first indices.
pub proof fn lemma_scheme_cycles(scheme: ColourScheme, index: nat)
    requires
        scheme.swatches().len() > 0,
    ensures
        scheme.colour_at(index + scheme.swatches().len() as int) == scheme.colour_at(index as int),
        index < scheme.swatches().len() ==> scheme.colour_at(index as int) == scheme.swatches()[index as int],
{
    let n = scheme.swatches().len() as int;
    assert((index + n) % n == (index as int) % n) by (nonlinear_arith)
        requires
            n > 0,
            index >= 0,
    ;
    if index < n {
        assert((index as int) % n == index as int) by (nonlinear_arith)
            requires
                0 <= index < n,
        ;
    }
}

/// Two colours with the same CSS notation are the same colour.
pub proof fn lemma_css_injective(a: Colour, b: Colour)
    requires
        a.css() == b.css(),
    ensures
        a == b,
{
    lemma_css_digits(a);
    lemma_css_digits(b);
    lemma_byte_hex_injective(a.rgb().0, b.rgb().0);
    lemma_byte_hex_injective(a.rgb().1, b.rgb().1);
    lemma_byte_hex_injective(a.rgb().2, b.rgb().2);
}

proof fn lemma_css_digits(c: Colour)
    ensures
        c.css().len() == 7,
        c.css()[1] == hex_digit(c.rgb().0 as int / 16),
        c.css()[2] == hex_digit(c.rgb().0 as int % 16),
        c.css()[3] == hex_digit(c.rgb().1 as int / 16),
        c.css()[4] == hex_digit(c.rgb().1 as int % 16),
        c.css()[5] == hex_digit(c.rgb().2 as int / 16),
        c.css()[6] == hex_digit(c.rgb().2 as int % 16),
{
    assert(c.css() =~= seq![
        '#',
        hex_digit(c.rgb().0 as int / 16),
        hex_digit(c.rgb().0 as int % 16),
        hex_digit(c.rgb().1 as int / 16),
        hex_digit(c.rgb().1 as int % 16),
        hex_digit(c.rgb().2 as int / 16),
        hex_digit(c.rgb().2 as int % 16),
    ]);
}

proof fn lemma_byte_hex_injective(x: u8, y: u8)
    requires
        hex_digit(x as int / 16) == hex_digit(y as int / 16),
        hex_digit(x as int % 16) == hex_digit(y as int % 16),
    ensures
        x == y,
{
    assert(x as int / 16 == y as int / 16);
    assert(x as int % 16 == y as int % 16);
}

} // verus!
