//! A byte-pair-encoding (BPE) tokenizer.
//!
//! The tokenizer learns a vocabulary of merge rules from a training text
//! (`BasicTokenizer::train`), turns text into a sequence of symbol ids
//! (`BasicTokenizer::encode`) and back (`BasicTokenizer::decode`), and
//! reads and writes a flat text representation of the learned model
//! (`BasicTokenizer::save_str`, `BasicTokenizer::load`).
//!
//! Symbol ids `0..256` stand for the raw bytes of the text's UTF-8 form;
//! ids `256 + i` are created by the `i`-th learned merge rule.

pub mod merge;
pub mod model;
pub mod pairs;
pub mod persist;
mod text;

use vstd::prelude::*;
use vstd::string::StringExecFns;

verus! {

/// Help text for the interactive shell's commands.
pub fn usage() -> (r: String)
    ensures
        r@ == "commands:\n\t[e|enc|encode] ./path.txt (in)\n\t[d|dec|decode] ./path.ids (in)\n\t[t|tr|train] ./path.txt (in)\n\t[l|ld|load] ./path.model (in)\n\t[s|sv|save] ./path.model (out)\n\t[p|pr|print]"@,
{
    String::from_str(
        "commands:\n\t[e|enc|encode] ./path.txt (in)\n\t[d|dec|decode] ./path.ids (in)\n\t[t|tr|train] ./path.txt (in)\n\t[l|ld|load] ./path.model (in)\n\t[s|sv|save] ./path.model (out)\n\t[p|pr|print]",
    )
}

/// Help text for the command-line interface.
pub fn cli_usage() -> (r: String)
    ensures
        r@ == "cli usage:\n\t./app [-e|e|enc|encode] ./path.txt ./path.model ./path.ids(default stdout)\n\t./app [-d|d|dec|decode] ./path.ids ./path.model ./path.txt(default stdout)\n\t./app [-t|t|tr|train] ./path.txt ./path.model(default stdout)\n\t./app -> REPL mode"@,
{
    String::from_str(
        "cli usage:\n\t./app [-e|e|enc|encode] ./path.txt ./path.model ./path.ids(default stdout)\n\t./app [-d|d|dec|decode] ./path.ids ./path.model ./path.txt(default stdout)\n\t./app [-t|t|tr|train] ./path.txt ./path.model(default stdout)\n\t./app -> REPL mode",
    )
}

} // verus!
