//! The durable tile cache's content addressing: one file per tile under a
//! configurable root, named by depth and coordinates.

use vstd::prelude::*;
use vstd::string::StringExecFns;

use crate::qtree::QTreeKey;

verus! {

/// The decimal digit character for a value below ten.
pub open spec fn dec_digit_char(d: int) -> char {
    if d == 0 {
        '0'
    } else if d == 1 {
        '1'
    } else if d == 2 {
        '2'
    } else if d == 3 {
        '3'
    } else if d == 4 {
        '4'
    } else if d == 5 {
        '5'
    } else if d == 6 {
        '6'
    } else if d == 7 {
        '7'
    } else if d == 8 {
        '8'
    } else {
        '9'
    }
}

/// The decimal digits of a number, most significant first.
pub open spec fn spec_dec(n: int) -> Seq<char>
    recommends
        n >= 0,
    decreases n,
{
    if n < 10 {
        seq![dec_digit_char(n)]
    } else {
        spec_dec(n / 10).push(dec_digit_char(n % 10))
    }
}

/// The one-character string for a decimal digit.
fn digit_str(d: u32) -> (r: &'static str)
    requires
        d < 10,
    ensures
        r@ == seq![dec_digit_char(d as int)],
{
    proof {
        reveal_strlit("0");
        reveal_strlit("1");
        reveal_strlit("2");
        reveal_strlit("3");
        reveal_strlit("4");
        reveal_strlit("5");
        reveal_strlit("6");
        reveal_strlit("7");
        reveal_strlit("8");
        reveal_strlit("9");
    }
    let r = match d {
        0u32 => "0",
        1u32 => "1",
        2u32 => "2",
        3u32 => "3",
        4u32 => "4",
        5u32 => "5",
        6u32 => "6",
        7u32 => "7",
        8u32 => "8",
        _ => "9",
    };
    proof {
        assert(r@ =~= seq![dec_digit_char(d as int)]);
    }
    r
}

/// Formats a number in decimal.
pub fn dec_str(n: u32) -> (r: String)
    ensures
        r@ == spec_dec(n as int),
    decreases n,
{
    if n < 10 {
        let mut s = String::new();
        s.append(digit_str(n));
        proof {
            assert(s@ =~= spec_dec(n as int));
        }
        s
    } else {
        let mut s = dec_str(n / 10);
        s.append(digit_str(n % 10));
        proof {
            assert(s@ =~= spec_dec(n as int));
        }
        s
    }
}

/// The file name a tile is stored under, relative to the cache root:
/// depth, x and y joined by underscores, with the configured extension.
pub open spec fn spec_tile_path(prefix: Seq<char>, key: QTreeKey, ext: Seq<char>) -> Seq<char> {
    prefix + seq!['/'] + spec_dec(key.spec_depth()) + seq!['_'] + spec_dec(key.spec_x())
        + seq!['_'] + spec_dec(key.spec_y()) + seq!['.'] + ext
}

/// Content addressing of the durable on-disk tile cache: a root directory
/// and a file extension; each tile's bytes live at a path derived from its
/// key alone.
pub struct DiskDirTileCache {
    pub cache_path_prefix: String,
    pub file_ext: String,
}

impl DiskDirTileCache {
    /// The path of the file that holds the tile for key.
    pub fn path_of(&self, key: QTreeKey) -> (r: String)
        ensures
            r@ == spec_tile_path(self.cache_path_prefix@, key, self.file_ext@),
    {
        proof {
            reveal_strlit("/");
            reveal_strlit("_");
            reveal_strlit(".");
        }
        let mut s = self.cache_path_prefix.clone();
        s.append("/");
        let d = dec_str(key.depth() as u32);
        s.append(d.as_str());
        s.append("_");
        let x = dec_str(key.x());
        s.append(x.as_str());
        s.append("_");
        let y = dec_str(key.y());
        s.append(y.as_str());
        s.append(".");
        s.append(self.file_ext.as_str());
        proof {
            assert(s@ =~= spec_tile_path(self.cache_path_prefix@, key, self.file_ext@));
        }
        s
    }
}

} // verus!
