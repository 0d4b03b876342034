//! Load Solana program binaries from ELF images.
use vstd::prelude::*;
use vstd::string::*;

verus! {

/// The I/O error a failed read leaves in a load error, carried through
/// unopened.
#[verifier::external_type_specification]
#[verifier::external_body]
pub struct ExIoError(std::io::Error);

/// Section type of sections that hold program-defined contents.
pub const SHT_PROGBITS: u32 = 1;

/// Section flag of sections that occupy memory at run time.
pub const SHF_ALLOC: u32 = 0x2;

/// Section flag of sections that hold executable instructions.
pub const SHF_EXECINSTR: u32 = 0x4;

/// Parsed program bytecode extracted from an ELF executable section.
#[derive(Debug, Clone, PartialEq, Eq)]
pub struct ProgramBytecode {
    pub text: Vec<u8>,
    pub entry_offset: usize,
}

/// Errors that can occur while loading a program binary.
#[derive(Debug)]
pub enum LoadError {
    Io(std::io::Error),
    NotElf(String),
    NoTextSection,
}

/// What the loader reads of one section header: its type, flags, file
/// offset and size.
#[derive(Debug, Clone, Copy, PartialEq, Eq, Structural)]
pub struct SectionInfo {
    pub sh_type: u32,
    pub sh_flags: u64,
    pub sh_offset: u64,
    pub sh_size: u64,
}

/// What the loader reads of a parsed ELF image: the entry point from the
/// ELF header and the section headers in file order.
pub struct ElfImage {
    pub entry: u64,
    pub sections: Vec<SectionInfo>,
}

impl SectionInfo {
    /// The header as a tuple of its type, flags, offset and size.
    pub open spec fn spec_tuple(self) -> (u32, u64, u64, u64) {
        (self.sh_type, self.sh_flags, self.sh_offset, self.sh_size)
    }
}

/// The section headers `sections` as tuples of type, flags, offset and size.
pub open spec fn spec_section_tuples(sections: Seq<SectionInfo>) -> Seq<(u32, u64, u64, u64)> {
    sections.map_values(|s: SectionInfo| s.spec_tuple())
}

/// The outcome of `goblin::elf::Elf::parse` on `data`: the ELF header's entry
/// point with the (type, flags, offset, size) of every section header, or the
/// text of the parse error.
pub uninterp spec fn goblin_elf_parse(data: Seq<u8>) -> Result<
    (u64, Seq<(u32, u64, u64, u64)>),
    Seq<char>,
>;

/// Calls `goblin::elf::Elf::parse` on `data` and copies out the entry point
/// and the section headers, or the error's text. Trusted to return what
/// `goblin_elf_parse` names for these bytes.
#[verifier::external_body]
fn parse_elf_image(data: &[u8]) -> (res: Result<ElfImage, String>)
    ensures
        match res {
            Ok(image) => goblin_elf_parse(data@) == Ok::<(u64, Seq<(u32, u64, u64, u64)>), Seq<char>>(
                (image.entry, image.sections@.map_values(|s: SectionInfo| s.spec_tuple())),
            ),
            Err(msg) => goblin_elf_parse(data@) == Err::<(u64, Seq<(u32, u64, u64, u64)>), Seq<char>>(
                msg@,
            ),
        },
{
    match goblin::elf::Elf::parse(data) {
        Ok(elf) => Ok(ElfImage {
            entry: elf.header.e_entry,
            sections: elf.section_headers.iter().map(|sh| SectionInfo {
                sh_type: sh.sh_type,
                sh_flags: sh.sh_flags,
                sh_offset: sh.sh_offset,
                sh_size: sh.sh_size,
            }).collect(),
        }),
        Err(e) => Err(e.to_string()),
    }
}

/// Calls `Display` on an I/O error. Nothing is stated of the text.
#[verifier::external_body]
fn io_error_text(e: &std::io::Error) -> String {
    e.to_string()
}

/// Whether a section header with type `sh_type` and flags `sh_flags` is an
/// allocated, executable section of program contents.
pub open spec fn spec_is_text_section(sh_type: u32, sh_flags: u64) -> bool {
    &&& sh_type == SHT_PROGBITS
    &&& (sh_flags as u32) & SHF_ALLOC == SHF_ALLOC
    &&& (sh_flags as u32) & SHF_EXECINSTR == SHF_EXECINSTR
}

/// Index of the first text section among `sections[i..]`.
pub open spec fn spec_first_text_section(sections: Seq<(u32, u64, u64, u64)>, i: int) -> Option<
    int,
>
    decreases sections.len() - i,
{
    if i < 0 || i >= sections.len() {
        None
    } else if spec_is_text_section(sections[i].0, sections[i].1) {
        Some(i)
    } else {
        spec_first_text_section(sections, i + 1)
    }
}

/// `start + size`, or `usize::MAX` when that overflows.
pub open spec fn spec_saturating_end(start: usize, size: usize) -> usize {
    if start + size > usize::MAX {
        usize::MAX
    } else {
        (start + size) as usize
    }
}

/// The text section that the section headers `sections` select in the
/// file `data`, with the entry point `entry`: the bytes of the first
/// allocated, executable section of program contents, or the error
/// (`Err(Some(msg))` for `NotElf(msg)`, `Err(None)` for `NoTextSection`).
pub open spec fn spec_text_of(data: Seq<u8>, entry: u64, sections: Seq<(u32, u64, u64, u64)>) -> Result<
    (Seq<u8>, usize),
    Option<Seq<char>>,
> {
    match spec_first_text_section(sections, 0) {
        None => Err(None),
        Some(i) => {
            let start = sections[i].2 as usize;
            let end = spec_saturating_end(start, sections[i].3 as usize);
            if end > data.len() {
                Err(Some("text section exceeds file bounds"@))
            } else {
                Ok((data.subrange(start as int, end as int), entry as usize))
            }
        },
    }
}

/// The text section of `data` that `parse_elf_bytes` extracts, with the
/// entry point, or the error it reports (`Err(Some(msg))` for `NotElf(msg)`,
/// `Err(None)` for `NoTextSection`).
pub open spec fn spec_parse_elf(data: Seq<u8>) -> Result<(Seq<u8>, usize), Option<Seq<char>>> {
    match goblin_elf_parse(data) {
        Err(msg) => Err(Some(msg)),
        Ok((entry, sections)) => spec_text_of(data, entry, sections),
    }
}

/// `res` is the loader's result for the outcome `outcome`.
pub open spec fn bytecode_result(
    outcome: Result<(Seq<u8>, usize), Option<Seq<char>>>,
    res: Result<ProgramBytecode, LoadError>,
) -> bool {
    match outcome {
        Ok((text, entry)) => res matches Ok(p) && p.text@ == text && p.entry_offset == entry,
        Err(Some(msg)) => res matches Err(LoadError::NotElf(m)) && m@ == msg,
        Err(None) => res matches Err(LoadError::NoTextSection),
    }
}

/// `res` is what `spec_parse_elf` says of `data`.
pub open spec fn parse_elf_result(data: Seq<u8>, res: Result<ProgramBytecode, LoadError>) -> bool {
    bytecode_result(spec_parse_elf(data), res)
}

fn is_text_section(section: &SectionInfo) -> (yes: bool)
    ensures
        yes == spec_is_text_section(section.sh_type, section.sh_flags),
{
    let flags = section.sh_flags as u32;
    section.sh_type == SHT_PROGBITS && flags & SHF_ALLOC == SHF_ALLOC && flags & SHF_EXECINSTR
        == SHF_EXECINSTR
}

proof fn lemma_first_text_section(sections: Seq<(u32, u64, u64, u64)>, i: int)
    ensures
        spec_first_text_section(sections, i) matches Some(j) ==> {
            &&& i <= j < sections.len()
            &&& spec_is_text_section(sections[j].0, sections[j].1)
        },
    decreases sections.len() - i,
{
    if 0 <= i < sections.len() && !spec_is_text_section(sections[i].0, sections[i].1) {
        lemma_first_text_section(sections, i + 1);
    }
}

fn first_text_section(sections: &Vec<SectionInfo>) -> (found: Option<usize>)
    ensures
        match spec_first_text_section(spec_section_tuples(sections@), 0) {
            Some(j) => found == Some(j as usize),
            None => found is None,
        },
{
    let ghost tuples = sections@.map_values(|s: SectionInfo| s.spec_tuple());
    let mut i: usize = 0;
    while i < sections.len()
        invariant
            i <= sections@.len(),
            tuples == sections@.map_values(|s: SectionInfo| s.spec_tuple()),
            spec_first_text_section(tuples, 0) == spec_first_text_section(tuples, i as int),
        decreases sections@.len() - i,
    {
        assert(tuples[i as int] == sections@[i as int].spec_tuple());
        if is_text_section(&sections[i]) {
            return Some(i);
        }
        i = i + 1;
    }
    None
}

/// Extract from the file `data` the text section that the parsed headers
/// `image` select: the first allocated, executable section of program
/// contents, which must lie within the file.
pub fn text_of_image(data: &[u8], image: &ElfImage) -> (res: Result<ProgramBytecode, LoadError>)
    ensures
        bytecode_result(
            spec_text_of(data@, image.entry, spec_section_tuples(image.sections@)),
            res,
        ),
{
    let found = first_text_section(&image.sections);
    let i = match found {
        Some(i) => i,
        None => return Err(LoadError::NoTextSection),
    };
    proof {
        lemma_first_text_section(spec_section_tuples(image.sections@), 0);
        assert(image.sections.len() == image.sections@.len());
    }
    let header = image.sections[i];
    proof {
        let tuples = spec_section_tuples(image.sections@);
        assert(tuples[i as int] == header.spec_tuple());
    }
    let start = header.sh_offset as usize;
    let end = start.saturating_add(header.sh_size as usize);
    if end > data.len() {
        let msg = String::from_str("text section exceeds file bounds");
        return Err(LoadError::NotElf(msg));
    }
    let text = vstd::slice::slice_to_vec(vstd::slice::slice_subrange(data, start, end));
    let entry_offset = image.entry as usize;
    Ok(ProgramBytecode { text, entry_offset })
}

/// Parse ELF bytes and extract the primary executable text section.
pub fn parse_elf_bytes(data: &[u8]) -> (res: Result<ProgramBytecode, LoadError>)
    ensures
        parse_elf_result(data@, res),
{
    let image = match parse_elf_image(data) {
        Ok(image) => image,
        Err(msg) => return Err(LoadError::NotElf(msg)),
    };
    text_of_image(data, &image)
}

impl From<std::io::Error> for LoadError {
    fn from(value: std::io::Error) -> (err: Self) {
        LoadError::Io(value)
    }
}

impl vstd::std_specs::convert::FromSpecImpl<std::io::Error> for LoadError {
    open spec fn obeys_from_spec() -> bool {
        true
    }

    open spec fn from_spec(v: std::io::Error) -> Self {
        LoadError::Io(v)
    }
}

impl LoadError {
    /// Human-readable description of the error.
    pub fn describe(&self) -> (text: String)
        ensures
            self matches LoadError::NotElf(msg) ==> text@ == "not a valid elf: "@ + msg@,
            self matches LoadError::NoTextSection ==> text@ == "no executable text section found"@,
            self matches LoadError::Io(_) ==> exists|detail: Seq<char>| text@ == "io error: "@ + detail,
    {
        match self {
            LoadError::Io(e) => {
                let detail = io_error_text(e);
                String::from_str("io error: ").concat(detail.as_str())
            },
            LoadError::NotElf(msg) => String::from_str("not a valid elf: ").concat(msg.as_str()),
            LoadError::NoTextSection => String::from_str("no executable text section found"),
        }
    }
}

} // verus!

verus! {

/// The extracted text section lies within the file.
pub proof fn lemma_parse_elf_text_within(data: Seq<u8>)
    ensures
        spec_parse_elf(data) matches Ok((text, _)) ==> text.len() <= data.len(),
{
}

} // verus!
