//! Command-line level data of the compression tool: the parsed arguments and
//! the directive they stand for.

use vstd::prelude::*;
use vstd::string::StringExecFns;

verus! {

/// The compression tool's arguments: a file to pack or one to unpack, and an
/// optional fixed output name.
#[derive(Debug, Default)]
pub struct CtArgs {
    /// Name of file to be compressed (packed).
    pub pack: Option<String>,
    /// Name of file to be decompressed (unpacked).
    pub unpack: Option<String>,
    /// Optional fixed output filename, after decompressing a compressed file.
    pub of: Option<String>,
}

/// What the tool is asked to do.
#[derive(Debug)]
pub enum CtDirective {
    /// Compress text file from given filename and optional fixed output name.
    Pack(String, Option<String>),
    /// Decompress binary file from given filename.
    Unpack(String),
}

impl CtDirective {
    /// The directive of an argument set: exactly one of `pack` and `unpack`
    /// must be given.
    pub fn from_args(args: CtArgs) -> (r: Result<CtDirective, String>)
        ensures
            (args.pack is Some <==> args.unpack is Some) ==> r is Err && (r->Err_0)@
                == "argument error: specifiy either 'pack' or 'unpack'"@,
            args.pack is Some && args.unpack is None ==> r is Ok && r->Ok_0 == CtDirective::Pack(
                args.pack->0,
                args.of,
            ),
            args.pack is None && args.unpack is Some ==> r is Ok && r->Ok_0 == CtDirective::Unpack(
                args.unpack->0,
            ),
    {
        if args.pack.is_some() == args.unpack.is_some() {
            Err(String::from_str("argument error: specifiy either 'pack' or 'unpack'"))
        } else if args.pack.is_some() {
            let name = match args.pack {
                Some(name) => name,
                None => {
                    proof {
                        assert(false);
                    }
                    vstd::pervasive::unreached()
                },
            };
            Ok(CtDirective::Pack(name, args.of))
        } else {
            let name = match args.unpack {
                Some(name) => name,
                None => {
                    proof {
                        assert(false);
                    }
                    vstd::pervasive::unreached()
                },
            };
            Ok(CtDirective::Unpack(name))
        }
    }
}

/// The whole input for the analysis pipeline: the text to be processed.
#[derive(Debug)]
pub struct CtInput {
    /// Content to be analyzed.
    pub content: String,
}

} // verus!
