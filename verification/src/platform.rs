//! The target platforms a pipeline run is configured for: the LLVM
//! target triplet handed to the external tools and the Rust `cfg`
//! predicate that guards the generated module.

use vstd::prelude::*;
use vstd::string::{StrSliceExecFns, StringExecFns};

verus! {

#[derive(Debug)]
pub struct Platform {
    pub triplet: &'static str,
    pub cfg: &'static str,
}

impl Platform {
    /// The module name derived from the triplet: every `-` becomes `_`.
    pub open spec fn spec_mod_name(self) -> Seq<char> {
        self.triplet@.map_values(
            |c: char|
                if c == '-' {
                    '_'
                } else {
                    c
                },
        )
    }

    /// The name of the generated module for this platform; for
    /// example, an `x86_64-unknown-linux-gnu` target emits
    /// `x86_64_unknown_linux_gnu.rs`.
    pub fn mod_name(&self) -> (r: String)
        ensures
            r@ == self.spec_mod_name(),
    {
        let n = self.triplet.unicode_len();
        let mut s = String::new();
        let mut i: usize = 0;
        while i < n
            invariant
                n == self.triplet@.len(),
                i <= n,
                s@ == self.spec_mod_name().take(i as int),
            decreases n - i,
        {
            let c = self.triplet.get_char(i);
            if c == '-' {
                s.append("_");
                proof {
                    reveal_strlit("_");
                    assert("_"@ =~= seq!['_']);
                }
            } else {
                let piece = self.triplet.substring_char(i, i + 1);
                assert(piece@ =~= seq![c]);
                s.append(piece);
            }
            assert(s@ =~= self.spec_mod_name().take(i as int + 1));
            i += 1;
        }
        assert(s@ =~= self.spec_mod_name());
        s
    }

    /// The target the AST dump runs against: bit-field layout is read
    /// once, on 64-bit Windows, and assumed identical across the set.
    pub fn win64() -> (p: Platform)
        ensures
            p.triplet@ == "x86_64-pc-windows-msvc"@,
    {
        Platform {
            triplet: "x86_64-pc-windows-msvc",
            cfg: "all(target_arch = \"x86_64\", windows)",
        }
    }

    /// The platforms a full run generates bindings for.
    pub fn typical() -> (v: Vec<Platform>)
        ensures
            v@.len() == 6,
            v@[0].triplet@ == "x86_64-unknown-linux-gnu"@,
            v@[1].triplet@ == "x86_64-pc-windows-msvc"@,
            v@[2].triplet@ == "i686-pc-windows-msvc"@,
            v@[3].triplet@ == "i686-unknown-linux-gnu"@,
            v@[4].triplet@ == "aarch64-unknown-linux-gnu"@,
            v@[5].triplet@ == "aarch64-linux-android"@,
    {
        let mut v: Vec<Platform> = Vec::new();
        v.push(
            Platform {
                triplet: "x86_64-unknown-linux-gnu",
                cfg: "all(target_arch = \"x86_64\", unix)",
            },
        );
        v.push(
            Platform {
                triplet: "x86_64-pc-windows-msvc",
                cfg: "all(target_arch = \"x86_64\", windows)",
            },
        );
        v.push(
            Platform {
                triplet: "i686-pc-windows-msvc",
                cfg: "all(target_arch = \"x86\", windows)",
            },
        );
        v.push(
            Platform {
                triplet: "i686-unknown-linux-gnu",
                cfg: "all(target_arch = \"x86\", unix)",
            },
        );
        v.push(
            Platform {
                triplet: "aarch64-unknown-linux-gnu",
                cfg: "all(target_arch = \"aarch64\", unix)",
            },
        );
        v.push(
            Platform {
                triplet: "aarch64-linux-android",
                cfg: "all(target_arch = \"aarch64\", target_os = \"android\")",
            },
        );
        v
    }
}

} // verus!
