//! Selection of the general-purpose compressor applied around a patch
//! stream. The codecs themselves are outside the library; the surrounding
//! tooling maps each variant to one.

use vstd::prelude::*;
use vstd::string::StringSliceAdditionalSpecFns;

verus! {

/// Compression method used around a patch stream.
#[derive(Debug, Clone, Copy, PartialEq, Eq, Structural)]
pub enum Method {
    Stored,
    Deflate,
    Brotli,
    Snappy,
    Zstd,
}

/// The method a name selects, by its bytes: "stored", "deflate",
/// "brotli", "snappy" or "zstd".
pub open spec fn spec_method_of(b: Seq<u8>) -> Option<Method> {
    if b == seq![115u8, 116u8, 111u8, 114u8, 101u8, 100u8] {
        Some(Method::Stored)
    } else if b == seq![100u8, 101u8, 102u8, 108u8, 97u8, 116u8, 101u8] {
        Some(Method::Deflate)
    } else if b == seq![98u8, 114u8, 111u8, 116u8, 108u8, 105u8] {
        Some(Method::Brotli)
    } else if b == seq![115u8, 110u8, 97u8, 112u8, 112u8, 121u8] {
        Some(Method::Snappy)
    } else if b == seq![122u8, 115u8, 116u8, 100u8] {
        Some(Method::Zstd)
    } else {
        None
    }
}

impl Method {
    /// Parse a method name; `None` for an unknown one.
    pub fn from_str(s: &str) -> (r: Option<Method>)
        ensures
            r == spec_method_of(s.spec_bytes()),
    {
        let b = s.as_bytes();
        let n = b.len();
        if n == 6 && b[0] == 115 && b[1] == 116 && b[2] == 111 && b[3] == 114 && b[4] == 101
            && b[5] == 100 {
            proof {
                assert(b@ =~= seq![115u8, 116u8, 111u8, 114u8, 101u8, 100u8]);
            }
            Some(Method::Stored)
        } else if n == 7 && b[0] == 100 && b[1] == 101 && b[2] == 102 && b[3] == 108 && b[4] == 97
            && b[5] == 116 && b[6] == 101 {
            proof {
                assert(b@ =~= seq![100u8, 101u8, 102u8, 108u8, 97u8, 116u8, 101u8]);
                assert(b@ != seq![115u8, 116u8, 111u8, 114u8, 101u8, 100u8]);
            }
            Some(Method::Deflate)
        } else if n == 6 && b[0] == 98 && b[1] == 114 && b[2] == 111 && b[3] == 116 && b[4] == 108
            && b[5] == 105 {
            proof {
                assert(b@ =~= seq![98u8, 114u8, 111u8, 116u8, 108u8, 105u8]);
                assert(b@[0] != 115u8);
            }
            Some(Method::Brotli)
        } else if n == 6 && b[0] == 115 && b[1] == 110 && b[2] == 97 && b[3] == 112 && b[4] == 112
            && b[5] == 121 {
            proof {
                assert(b@ =~= seq![115u8, 110u8, 97u8, 112u8, 112u8, 121u8]);
                assert(b@[1] != 116u8);
                assert(b@[0] != 98u8);
            }
            Some(Method::Snappy)
        } else if n == 4 && b[0] == 122 && b[1] == 115 && b[2] == 116 && b[3] == 100 {
            proof {
                assert(b@ =~= seq![122u8, 115u8, 116u8, 100u8]);
            }
            Some(Method::Zstd)
        } else {
            None
        }
    }
}

impl Default for Method {
    /// Patches are stored uncompressed unless a method is chosen.
    fn default() -> (r: Self)
        ensures
            r == Method::Stored,
    {
        Method::Stored
    }
}

} // verus!
