//! The fixed catalogue of example datasets: each selectable index maps to a
//! reference picture and the directory holding its tiles.

use vstd::prelude::*;

verus! {

/// How many example datasets the catalogue holds.
pub const IMAGE_COUNT: usize = 7;

/// The reference-image path and tile-directory path for the selected index.
pub fn idx_to_image_path(index: usize) -> (r: (&'static str, &'static str))
    requires
        index < IMAGE_COUNT,
    ensures
        index == 0 ==> r == ("../examples/picture1.jpg", "../examples/slika 1/"),
        index == 1 ==> r == ("../examples/picture1.jpg", "../examples/slika 1 - 1/"),
        index == 2 ==> r == ("../examples/picture2.jpg", "../examples/slika 2/"),
        index == 3 ==> r == ("../examples/picture2.jpg", "../examples/slika 2 - 1/"),
        index == 4 ==> r == ("../examples/picture3.jpg", "../examples/slika 3/"),
        index == 5 ==> r == ("../examples/picture4.jpg", "../examples/slika 4/"),
        index == 6 ==> r == ("../examples/picture5.jpg", "../examples/slika 5/"),
{
    match index {
        0 => ("../examples/picture1.jpg", "../examples/slika 1/"),
        1 => ("../examples/picture1.jpg", "../examples/slika 1 - 1/"),
        2 => ("../examples/picture2.jpg", "../examples/slika 2/"),
        3 => ("../examples/picture2.jpg", "../examples/slika 2 - 1/"),
        4 => ("../examples/picture3.jpg", "../examples/slika 3/"),
        5 => ("../examples/picture4.jpg", "../examples/slika 4/"),
        _ => ("../examples/picture5.jpg", "../examples/slika 5/"),
    }
}

} // verus!
