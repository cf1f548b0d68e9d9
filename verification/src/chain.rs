//! The codec chains that the pipeline works with, as plain values: one
//! `bytes` codec, followed by any number of `gzip` and `crc32c` codecs, no
//! more than 32 codecs in all.

use vstd::prelude::*;

verus! {

/// The byte order in which the `bytes` codec stores elements.
#[derive(Clone, Copy, Debug, PartialEq, Eq, Structural)]
pub enum Endian {
    Little,
    Big,
}

/// A codec from bytes to bytes.
#[derive(Clone, Copy, Debug, PartialEq, Eq, Structural)]
pub enum Packer {
    /// `gzip` at a compression level from 0 to 9.
    Gzip(u32),
    /// `crc32c`: a checksum after the bytes.
    Crc32c,
}

/// One entry of a list of codec metadata, as the text gives it: the name of
/// the codec, what its configuration holds under `endian` where that is a
/// string and under `level` where that is a non-negative integer, and the
/// number of fields of its configuration.
#[derive(Clone, Debug, PartialEq, Eq)]
pub struct CodecText {
    pub name: String,
    pub endian: Option<String>,
    pub level: Option<u64>,
    pub fields: usize,
}

/// An entry of a list of codec metadata as plain values.
pub struct CodecTextModel {
    pub name: Seq<char>,
    pub endian: Option<Seq<char>>,
    pub level: Option<u64>,
    pub fields: usize,
}

/// A codec chain as plain values: the byte order of its `bytes` codec, and
/// the codecs from bytes to bytes after it, in the order of encoding.
pub struct ChainModel {
    pub endian: Option<Endian>,
    pub packers: Seq<Packer>,
}

/// A codec chain that the pipeline works with: no compression level is
/// above 9, and there are no more than 31 codecs after the `bytes` codec.
#[derive(Debug)]
pub struct ChainDescription {
    endian: Option<Endian>,
    packers: Vec<Packer>,
}

impl CodecText {
    /// The entry as plain values.
    pub open spec fn model(&self) -> CodecTextModel {
        CodecTextModel {
            name: self.name@,
            endian: match self.endian {
                Some(e) => Some(e@),
                None => None,
            },
            level: self.level,
            fields: self.fields,
        }
    }
}

/// The entries of a list as plain values.
pub open spec fn models_of(texts: Seq<CodecText>) -> Seq<CodecTextModel> {
    Seq::new(texts.len(), |i: int| texts[i].model())
}

/// The byte order that an entry gives to the `bytes` codec; `None` where the
/// entry is no `bytes` codec: it has another name, another field than
/// `endian`, or a byte order other than `little` and `big`.
pub open spec fn endian_of(text: CodecTextModel) -> Option<Option<Endian>> {
    if text.name != "bytes"@ {
        None
    } else {
        match text.endian {
            None => if text.fields == 0 {
                Some(None)
            } else {
                None
            },
            Some(order) => if text.fields != 1 {
                None
            } else if order == "little"@ {
                Some(Some(Endian::Little))
            } else if order == "big"@ {
                Some(Some(Endian::Big))
            } else {
                None
            },
        }
    }
}

/// The codec from bytes to bytes that an entry describes; `None` where it
/// describes none: it is neither `gzip` with a level from 0 to 9 and no
/// other field, nor `crc32c` without fields.
pub open spec fn packer_of(text: CodecTextModel) -> Option<Packer> {
    if text.name == "gzip"@ {
        match text.level {
            Some(level) => if level <= 9 && text.fields == 1 {
                Some(Packer::Gzip(level as u32))
            } else {
                None
            },
            None => None,
        }
    } else if text.name == "crc32c"@ {
        if text.fields == 0 {
            Some(Packer::Crc32c)
        } else {
            None
        }
    } else {
        None
    }
}

/// The codecs from bytes to bytes that the entries after the first, up to
/// the `n`-th, describe; `None` where one of them describes none.
pub open spec fn packers_described(texts: Seq<CodecTextModel>, n: int) -> Option<Seq<Packer>>
    decreases n,
{
    if n <= 1 {
        Some(Seq::empty())
    } else {
        match packers_described(texts, n - 1) {
            None => None,
            Some(packers) => match packer_of(texts[n - 1]) {
                None => None,
                Some(packer) => Some(packers.push(packer)),
            },
        }
    }
}

/// The chain that a list of entries describes; `None` where it describes
/// none that the pipeline works with: the list is empty or longer than 32,
/// its first entry is no `bytes` codec, or a later one is neither `gzip` nor
/// `crc32c`.
pub open spec fn chain_described(texts: Seq<CodecTextModel>) -> Option<ChainModel> {
    if texts.len() == 0 || texts.len() > 32 {
        None
    } else {
        match endian_of(texts[0]) {
            None => None,
            Some(endian) => match packers_described(texts, texts.len() as int) {
                None => None,
                Some(packers) => Some(ChainModel { endian, packers }),
            },
        }
    }
}

/// No compression level is above 9.
pub open spec fn levels_in_range(packers: Seq<Packer>) -> bool {
    forall|i: int|
        0 <= i < packers.len() ==> match #[trigger] packers[i] {
            Packer::Gzip(level) => level <= 9,
            Packer::Crc32c => true,
        }
}

/// Once an entry has described no codec, the list describes none.
proof fn lemma_packers_fail(texts: Seq<CodecTextModel>, m: int, n: int)
    requires
        1 <= m <= n,
        packers_described(texts, m) is None,
    ensures
        packers_described(texts, n) is None,
    decreases n - m,
{
    if m < n {
        lemma_packers_fail(texts, m, n - 1);
    }
}

/// Whether a string is the given text.
fn is_text(value: &String, text: &str) -> (same: bool)
    ensures
        same == (value@ == text@),
{
    let other = text.to_owned();
    *value == other
}

/// The byte order that an entry gives to the `bytes` codec.
pub fn bytes_codec(text: &CodecText) -> (endian: Option<Option<Endian>>)
    ensures
        endian == endian_of(text.model()),
{
    if !is_text(&text.name, "bytes") {
        return None;
    }
    match &text.endian {
        None => if text.fields == 0 {
            Some(None)
        } else {
            None
        },
        Some(order) => if text.fields != 1 {
            None
        } else if is_text(order, "little") {
            Some(Some(Endian::Little))
        } else if is_text(order, "big") {
            Some(Some(Endian::Big))
        } else {
            None
        },
    }
}

/// The codec from bytes to bytes that an entry describes.
pub fn packer(text: &CodecText) -> (packer: Option<Packer>)
    ensures
        packer == packer_of(text.model()),
        packer matches Some(Packer::Gzip(level)) ==> level <= 9,
{
    if is_text(&text.name, "gzip") {
        match text.level {
            Some(level) => if level <= 9 && text.fields == 1 {
                Some(Packer::Gzip(level as u32))
            } else {
                None
            },
            None => None,
        }
    } else if is_text(&text.name, "crc32c") {
        if text.fields == 0 {
            Some(Packer::Crc32c)
        } else {
            None
        }
    } else {
        None
    }
}

impl ChainDescription {
    #[verifier::type_invariant]
    spec fn valid(self) -> bool {
        self.packers@.len() <= 31 && levels_in_range(self.packers@)
    }

    /// The chain as plain values.
    pub closed spec fn model(&self) -> ChainModel {
        ChainModel { endian: self.endian, packers: self.packers@ }
    }

    /// The chain that a list of entries describes, where it is one that the
    /// pipeline works with.
    pub fn interpret(texts: &Vec<CodecText>) -> (result: Option<ChainDescription>)
        ensures
            match result {
                Some(chain) => chain_described(models_of(texts@)) == Some(chain.model()),
                None => chain_described(models_of(texts@)) is None,
            },
    {
        let ghost models = models_of(texts@);
        if texts.len() == 0 || texts.len() > 32 {
            return None;
        }
        let endian = match bytes_codec(&texts[0]) {
            Some(endian) => endian,
            None => {
                return None;
            },
        };
        let mut packers: Vec<Packer> = Vec::new();
        let mut i: usize = 1;
        while i < texts.len()
            invariant
                1 <= i <= texts.len(),
                texts@.len() <= 32,
                models == models_of(texts@),
                packers@.len() == i - 1,
                packers_described(models, i as int) == Some(packers@),
                levels_in_range(packers@),
            decreases texts.len() - i,
        {
            match packer(&texts[i]) {
                Some(next) => {
                    packers.push(next);
                },
                None => {
                    proof {
                        assert(models[i as int] == texts@[i as int].model());
                        lemma_packers_fail(models, i as int + 1, texts@.len() as int);
                    }
                    return None;
                },
            }
            i += 1;
        }
        Some(ChainDescription { endian, packers })
    }

    /// The byte order of the `bytes` codec.
    pub fn endian(&self) -> (endian: Option<Endian>)
        ensures
            endian == self.model().endian,
    {
        self.endian
    }

    /// The codecs after the `bytes` codec, in the order of encoding.
    pub fn packers(&self) -> (packers: &Vec<Packer>)
        ensures
            packers@ == self.model().packers,
            packers@.len() <= 31,
            levels_in_range(packers@),
    {
        proof {
            use_type_invariant(self);
        }
        &self.packers
    }
}

} // verus!
