//! The palette of bubble colors.
use vstd::prelude::*;
use crate::graph::bubble::Color;

verus! {

/// The game colors, in the order in which groups take them: turquoise,
/// rose, green, yellow, red and orange.
pub open spec fn all_colors() -> Seq<Color> {
    seq![
        Color { r: 85, g: 196, b: 200, a: 255 },
        Color { r: 212, g: 131, b: 145, a: 255 },
        Color { r: 95, g: 168, b: 69, a: 255 },
        Color { r: 192, g: 199, b: 49, a: 255 },
        Color { r: 212, g: 31, b: 53, a: 255 },
        Color { r: 236, g: 133, b: 35, a: 255 },
    ]
}

/// The six game colors.
pub fn all_game_colors() -> (r: [Color; 6])
    ensures
        r@ == all_colors(),
{
    let r = [
        Color { r: 85, g: 196, b: 200, a: 255 },
        Color { r: 212, g: 131, b: 145, a: 255 },
        Color { r: 95, g: 168, b: 69, a: 255 },
        Color { r: 192, g: 199, b: 49, a: 255 },
        Color { r: 212, g: 31, b: 53, a: 255 },
        Color { r: 236, g: 133, b: 35, a: 255 },
    ];
    assert(r@ =~= all_colors());
    r
}

/// The first `size` game colors, or all six when `size` is larger.
pub fn get_group(size: usize) -> (r: Vec<Color>)
    ensures
        r@ == all_colors().take(if size < 6 { size as int } else { 6 }),
{
    let all = all_game_colors();
    let n: usize = if size < 6 { size } else { 6 };
    let mut r: Vec<Color> = Vec::new();
    let mut i: usize = 0;
    while i < n
        invariant
            n <= 6,
            i <= n,
            all@ == all_colors(),
            r@ == all_colors().take(i as int),
        decreases n - i,
    {
        r.push(all[i]);
        proof {
            assert(all_colors().take(i + 1) =~= all_colors().take(i as int).push(all_colors()[i as int]));
        }
        i += 1;
    }
    r
}

} // verus!
