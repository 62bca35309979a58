//! Primitives and the fragments that render to them.

use vstd::prelude::*;
use super::geometry::{UIVector, UIAABB};

verus! {

/// A drawable value with resolved geometry. A primitive is never changed in
/// place: when what it shows changes, it is replaced as a whole.
#[derive(Debug)]
pub enum Primitive {
    /// A text in a box.
    Text(UIAABB, String),
    /// A box filled in a style.
    Rect(UIAABB, u32),
    /// A point.
    Point(UIVector),
}

/// What a primitive shows.
pub enum Shown {
    Text(UIAABB, Seq<char>),
    Rect(UIAABB, u32),
    Point(UIVector),
}

impl View for Primitive {
    type V = Shown;

    open spec fn view(&self) -> Shown {
        match *self {
            Primitive::Text(aabb, text) => Shown::Text(aabb, text@),
            Primitive::Rect(aabb, style) => Shown::Rect(aabb, style),
            Primitive::Point(at) => Shown::Point(at),
        }
    }
}

impl Clone for Primitive {
    fn clone(&self) -> (copy: Self)
        ensures
            copy == *self,
    {
        match self {
            Primitive::Text(aabb, text) => Primitive::Text(*aabb, text.clone()),
            Primitive::Rect(aabb, style) => Primitive::Rect(*aabb, *style),
            Primitive::Point(at) => Primitive::Point(*at),
        }
    }
}

/// What a sequence of primitives shows.
pub open spec fn shown(primitives: Seq<Primitive>) -> Seq<Shown> {
    primitives.map_values(|p: Primitive| p@)
}

/// Something that renders to primitives.
pub trait Fragment {
    /// What the fragment shows.
    spec fn rendered(&self) -> Seq<Shown>;

    /// The primitives that show the fragment.
    fn primitives(&self) -> (out: Vec<Primitive>)
        ensures
            shown(out@) == self.rendered(),
    ;
}

impl Fragment for Primitive {
    open spec fn rendered(&self) -> Seq<Shown> {
        seq![self@]
    }

    fn primitives(&self) -> (out: Vec<Primitive>) {
        let mut out: Vec<Primitive> = Vec::new();
        out.push(self.clone());
        assert(shown(out@) =~= seq![self@]);
        out
    }
}

/// The character of a decimal digit.
pub open spec fn digit(d: int) -> char {
    if d == 0 {
        '0'
    } else if d == 1 {
        '1'
    } else if d == 2 {
        '2'
    } else if d == 3 {
        '3'
    } else if d == 4 {
        '4'
    } else if d == 5 {
        '5'
    } else if d == 6 {
        '6'
    } else if d == 7 {
        '7'
    } else if d == 8 {
        '8'
    } else {
        '9'
    }
}

/// The decimal digits of a natural number, without leading zeros.
pub open spec fn digits(n: nat) -> Seq<char>
    decreases n,
{
    if n < 10 {
        seq![digit(n as int)]
    } else {
        digits(n / 10).push(digit((n % 10) as int))
    }
}

/// The decimal notation of an integer.
pub open spec fn decimal(n: int) -> Seq<char> {
    if n < 0 {
        seq!['-'] + digits((-n) as nat)
    } else {
        digits(n as nat)
    }
}

fn digit_text(d: u64) -> (text: &'static str)
    requires
        d < 10,
    ensures
        text@ == seq![digit(d as int)],
{
    proof {
        reveal_strlit("0");
        reveal_strlit("1");
        reveal_strlit("2");
        reveal_strlit("3");
        reveal_strlit("4");
        reveal_strlit("5");
        reveal_strlit("6");
        reveal_strlit("7");
        reveal_strlit("8");
        reveal_strlit("9");
    }
    let text: &'static str = if d == 0 {
        "0"
    } else if d == 1 {
        "1"
    } else if d == 2 {
        "2"
    } else if d == 3 {
        "3"
    } else if d == 4 {
        "4"
    } else if d == 5 {
        "5"
    } else if d == 6 {
        "6"
    } else if d == 7 {
        "7"
    } else if d == 8 {
        "8"
    } else {
        "9"
    };
    assert(text@ =~= seq![digit(d as int)]);
    text
}

fn write_digits(n: u64, text: &mut String)
    ensures
        final(text)@ == old(text)@ + digits(n as nat),
    decreases n,
{
    if n >= 10 {
        write_digits(n / 10, text);
    }
    text.append(digit_text(n % 10));
    assert(text@ =~= old(text)@ + digits(n as nat));
}

/// The decimal notation of a number.
pub fn decimal_text(value: i32) -> (text: String)
    ensures
        text@ == decimal(value as int),
{
    let mut text = String::new();
    if value < 0 {
        proof {
            reveal_strlit("-");
        }
        text.append("-");
        assert(text@ =~= seq!['-']);
        write_digits((-(value as i64)) as u64, &mut text);
    } else {
        write_digits(value as u64, &mut text);
    }
    assert(text@ =~= decimal(value as int));
    text
}

impl Fragment for i32 {
    /// A number shows as the text of its decimal notation, in a box that a
    /// container has yet to place.
    open spec fn rendered(&self) -> Seq<Shown> {
        seq![Shown::Text(UIAABB::nowhere(), decimal(*self as int))]
    }

    fn primitives(&self) -> (out: Vec<Primitive>) {
        let mut out: Vec<Primitive> = Vec::new();
        out.push(Primitive::Text(UIAABB::unplaced(), decimal_text(*self)));
        assert(shown(out@) =~= self.rendered());
        out
    }
}

} // verus!
