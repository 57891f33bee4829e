//! Markup for the boxes and the paths: numbers in decimal, one element a line.

use crate::geometry::Point;
use crate::geometry::Rect;
use crate::route::Path;
use vstd::prelude::*;

verus! {

/// The character of a decimal digit.
pub open spec fn digit_char(d: nat) -> char {
    if d == 0 {
        '0'
    } else if d == 1 {
        '1'
    } else if d == 2 {
        '2'
    } else if d == 3 {
        '3'
    } else if d == 4 {
        '4'
    } else if d == 5 {
        '5'
    } else if d == 6 {
        '6'
    } else if d == 7 {
        '7'
    } else if d == 8 {
        '8'
    } else {
        '9'
    }
}

/// A natural number in decimal, without leading zeros.
pub open spec fn decimal(n: nat) -> Seq<char>
    decreases n,
{
    if n < 10 {
        seq![digit_char(n)]
    } else {
        decimal(n / 10).push(digit_char(n % 10))
    }
}

/// An integer in decimal, with a minus sign where it is negative.
pub open spec fn signed_decimal(i: int) -> Seq<char> {
    if i < 0 {
        seq!['-'] + decimal((-i) as nat)
    } else {
        decimal(i as nat)
    }
}

/// A point as a path takes it: `x`, a space, `y`.
pub open spec fn point_markup(p: Point) -> Seq<char> {
    decimal(p.x as nat) + seq![' '] + decimal(p.y as nat)
}

/// The element for one box.
pub open spec fn rect_markup(r: Rect) -> Seq<char> {
    "<rect x=\""@ + decimal(r.top_left.x as nat) + "\" y=\""@ + decimal(r.top_left.y as nat)
        + "\" height=\""@ + decimal(r.height as nat) + "\" width=\""@ + decimal(r.width as nat)
        + "\" />"@
}

/// The element for one path.
pub open spec fn path_markup(p: Path) -> Seq<char> {
    "<path d=\"\n                    M "@ + point_markup(p.start) + "\n                    h "@
        + signed_decimal(p.horizontal as int) + "\n                    v "@ + signed_decimal(
        p.vertical as int,
    ) + "\n                    L "@ + point_markup(p.end) + "\" />"@
}

/// The elements for `rects`, a line each.
pub open spec fn rects_markup(rects: Seq<Rect>) -> Seq<char>
    decreases rects.len(),
{
    if rects.len() == 0 {
        Seq::empty()
    } else if rects.len() == 1 {
        rect_markup(rects[0])
    } else {
        rects_markup(rects.drop_last()) + seq!['\n'] + rect_markup(rects.last())
    }
}

/// The elements for `paths`, a line each.
pub open spec fn paths_markup(paths: Seq<Path>) -> Seq<char>
    decreases paths.len(),
{
    if paths.len() == 0 {
        Seq::empty()
    } else if paths.len() == 1 {
        path_markup(paths[0])
    } else {
        paths_markup(paths.drop_last()) + seq!['\n'] + path_markup(paths.last())
    }
}

/// One decimal digit as a string.
fn digit_str(d: u64) -> (s: &'static str)
    requires
        d < 10,
    ensures
        s@ == seq![digit_char(d as nat)],
{
    proof {
        reveal_strlit("0");
        reveal_strlit("1");
        reveal_strlit("2");
        reveal_strlit("3");
        reveal_strlit("4");
        reveal_strlit("5");
        reveal_strlit("6");
        reveal_strlit("7");
        reveal_strlit("8");
        reveal_strlit("9");
    }
    let s = if d == 0 {
        "0"
    } else if d == 1 {
        "1"
    } else if d == 2 {
        "2"
    } else if d == 3 {
        "3"
    } else if d == 4 {
        "4"
    } else if d == 5 {
        "5"
    } else if d == 6 {
        "6"
    } else if d == 7 {
        "7"
    } else if d == 8 {
        "8"
    } else {
        "9"
    };
    assert(s@ =~= seq![digit_char(d as nat)]);
    s
}

/// `n` in decimal.
pub fn decimal_string(n: u64) -> (s: String)
    ensures
        s@ == decimal(n as nat),
    decreases n,
{
    if n < 10 {
        String::from_str(digit_str(n))
    } else {
        let mut s = decimal_string(n / 10);
        s.append(digit_str(n % 10));
        assert(s@ =~= decimal(n as nat));
        s
    }
}

/// `v` in decimal, with its sign where it is negative.
pub fn signed_decimal_string(v: i64) -> (s: String)
    ensures
        s@ == signed_decimal(v as int),
{
    if v < 0 {
        let magnitude: u64 = ((-(v + 1)) as u64) + 1;
        let mut s = String::from_str("-");
        proof {
            reveal_strlit("-");
        }
        s.append(decimal_string(magnitude).as_str());
        assert(s@ =~= signed_decimal(v as int));
        s
    } else {
        decimal_string(v as u64)
    }
}

impl Point {
    /// The point as a path takes it: `x`, a space, `y`.
    pub fn svg_path_point(&self) -> (s: String)
        ensures
            s@ == point_markup(*self),
    {
        let mut s = decimal_string(self.x as u64);
        proof {
            reveal_strlit(" ");
        }
        s.append(" ");
        s.append(decimal_string(self.y as u64).as_str());
        assert(s@ =~= point_markup(*self));
        s
    }
}

/// The element for `rect`.
pub fn render_rect(rect: &Rect) -> (s: String)
    ensures
        s@ == rect_markup(*rect),
{
    let mut s = String::from_str("<rect x=\"");
    s.append(decimal_string(rect.top_left.x as u64).as_str());
    s.append("\" y=\"");
    s.append(decimal_string(rect.top_left.y as u64).as_str());
    s.append("\" height=\"");
    s.append(decimal_string(rect.height as u64).as_str());
    s.append("\" width=\"");
    s.append(decimal_string(rect.width as u64).as_str());
    s.append("\" />");
    s
}

/// The element for `path`.
pub fn render_path(path: &Path) -> (s: String)
    ensures
        s@ == path_markup(*path),
{
    let mut s = String::from_str("<path d=\"\n                    M ");
    s.append(path.start.svg_path_point().as_str());
    s.append("\n                    h ");
    s.append(signed_decimal_string(path.horizontal).as_str());
    s.append("\n                    v ");
    s.append(signed_decimal_string(path.vertical).as_str());
    s.append("\n                    L ");
    s.append(path.end.svg_path_point().as_str());
    s.append("\" />");
    s
}

/// The elements for `rects`, a line each.
pub fn render_rects(rects: &Vec<Rect>) -> (s: String)
    ensures
        s@ == rects_markup(rects@),
{
    let mut s = String::new();
    let mut i: usize = 0;
    while i < rects.len()
        invariant
            i <= rects.len(),
            s@ == rects_markup(rects@.take(i as int)),
        decreases rects.len() - i,
    {
        proof {
            reveal_strlit("\n");
            assert(rects@.take(i + 1).drop_last() == rects@.take(i as int));
            assert(rects@.take(i + 1).last() == rects@[i as int]);
        }
        if i > 0 {
            s.append("\n");
        }
        s.append(render_rect(&rects[i]).as_str());
        i += 1;
        assert(s@ =~= rects_markup(rects@.take(i as int)));
    }
    assert(rects@.take(rects.len() as int) == rects@);
    s
}

/// The elements for `paths`, a line each.
pub fn render_paths(paths: &Vec<Path>) -> (s: String)
    ensures
        s@ == paths_markup(paths@),
{
    let mut s = String::new();
    let mut i: usize = 0;
    while i < paths.len()
        invariant
            i <= paths.len(),
            s@ == paths_markup(paths@.take(i as int)),
        decreases paths.len() - i,
    {
        proof {
            reveal_strlit("\n");
            assert(paths@.take(i + 1).drop_last() == paths@.take(i as int));
            assert(paths@.take(i + 1).last() == paths@[i as int]);
        }
        if i > 0 {
            s.append("\n");
        }
        s.append(render_path(&paths[i]).as_str());
        i += 1;
        assert(s@ =~= paths_markup(paths@.take(i as int)));
    }
    assert(paths@.take(paths.len() as int) == paths@);
    s
}

} // verus!
