//! ELF images as tables of named, patchable items.

use capstone::arch::mips::ArchMode;
use capstone::arch::{BuildsCapstone, BuildsCapstoneEndian};
use capstone::Error as CapstoneError;
use crate::gdb::{text_of, utf8_text};
use goblin::error::Error as GoblinError;
use vstd::prelude::*;

verus! {

/// goblin's error type, carried opaque.
#[verifier::external_type_specification]
#[verifier::external_body]
pub struct ExGoblinError(GoblinError);

/// capstone's error type, carried opaque.
#[verifier::external_type_specification]
#[verifier::external_body]
pub struct ExCapstoneError(CapstoneError);

/// Why an ELF image could not be read as a program.
#[derive(Debug, Clone, Copy, PartialEq, Eq, Structural)]
pub enum ParseError {
    /// The ELF structures themselves are malformed or truncated.
    Malformed,
    /// A symbol names a section that the section table does not hold.
    SectionOutOfRange,
    /// A symbol's address lies before its section, or its offset overflows.
    AddressOutOfRange,
    /// A symbol's content runs past the end of the image.
    ContentOutOfRange,
}

/// One entry of the symbol table, with its name already looked up in the
/// string table (`None` when the lookup failed).
#[derive(Debug, Clone)]
pub struct SymbolEntry {
    pub name: Option<String>,
    pub section_index: usize,
    pub value: u64,
    pub size: u64,
}

/// One section header, with its name already looked up in the section name
/// string table (`None` when the lookup failed).
#[derive(Debug, Clone)]
pub struct SectionEntry {
    pub name: Option<String>,
    pub addr: u64,
    pub offset: u64,
}

/// The two tables of an ELF image that items are made from.
#[derive(Debug, Clone)]
pub struct ElfTables {
    pub symbols: Vec<SymbolEntry>,
    pub sections: Vec<SectionEntry>,
}

pub struct SymbolView {
    pub name: Option<Seq<char>>,
    pub section_index: usize,
    pub value: u64,
    pub size: u64,
}

pub struct SectionView {
    pub name: Option<Seq<char>>,
    pub addr: u64,
    pub offset: u64,
}

pub struct ElfTablesView {
    pub symbols: Seq<SymbolView>,
    pub sections: Seq<SectionView>,
}

pub open spec fn text_view(o: Option<String>) -> Option<Seq<char>> {
    match o {
        Some(s) => Some(s@),
        None => None,
    }
}

impl View for SymbolEntry {
    type V = SymbolView;

    open spec fn view(&self) -> SymbolView {
        SymbolView {
            name: text_view(self.name),
            section_index: self.section_index,
            value: self.value,
            size: self.size,
        }
    }
}

impl View for SectionEntry {
    type V = SectionView;

    open spec fn view(&self) -> SectionView {
        SectionView { name: text_view(self.name), addr: self.addr, offset: self.offset }
    }
}

impl View for ElfTables {
    type V = ElfTablesView;

    open spec fn view(&self) -> ElfTablesView {
        ElfTablesView {
            symbols: self.symbols@.map_values(|s: SymbolEntry| s@),
            sections: self.sections@.map_values(|s: SectionEntry| s@),
        }
    }
}

/// What goblin reads from an ELF image: its symbol and section tables, or
/// `None` when it refuses the image.
pub uninterp spec fn elf_tables(image: Seq<u8>) -> Option<ElfTablesView>;

/// Relies on `goblin::elf::Elf::parse` to read the image, on its `syms` and
/// `section_headers` tables as parsed, and on `Strtab::get_at` to look up the
/// names of symbols and sections. All of it depends on the image alone.
#[verifier::external_body]
fn read_elf_tables(image: &[u8]) -> (r: core::result::Result<ElfTables, GoblinError>)
    ensures
        match r {
            Ok(t) => elf_tables(image@) == Some(t@),
            Err(_) => elf_tables(image@) is None,
        },
{
    let elf = goblin::elf::Elf::parse(image)?;
    let symbols = elf.syms.iter().map(|s| SymbolEntry {
        name: elf.strtab.get_at(s.st_name).map(String::from),
        section_index: s.st_shndx,
        value: s.st_value,
        size: s.st_size,
    }).collect();
    let sections = elf.section_headers.iter().map(|h| SectionEntry {
        name: elf.shdr_strtab.get_at(h.sh_name).map(String::from),
        addr: h.sh_addr,
        offset: h.sh_offset,
    }).collect();
    Ok(ElfTables { symbols, sections })
}

/// A named region of code or data, with its place in the image (`rom_addr`)
/// and in target memory (`ram_addr`), and a copy of its bytes.
#[derive(Debug, Clone)]
pub struct Item {
    pub name: String,
    pub section_name: Option<String>,
    pub ram_addr: u64,
    pub rom_addr: u64,
    pub content: Vec<u8>,
}

pub struct ItemView {
    pub name: Seq<char>,
    pub section_name: Option<Seq<char>>,
    pub ram_addr: u64,
    pub rom_addr: u64,
    pub content: Seq<u8>,
}

impl View for Item {
    type V = ItemView;

    open spec fn view(&self) -> ItemView {
        ItemView {
            name: self.name@,
            section_name: text_view(self.section_name),
            ram_addr: self.ram_addr,
            rom_addr: self.rom_addr,
            content: self.content@,
        }
    }
}

/// Two items are the same when their section, both addresses and their
/// bytes agree.
pub open spec fn same_item(a: ItemView, b: ItemView) -> bool {
    &&& a.section_name == b.section_name
    &&& a.ram_addr == b.ram_addr
    &&& a.rom_addr == b.rom_addr
    &&& a.content == b.content
}

/// Section indices that name no real section: UNDEF, the processor range
/// LOPROC..HIPROC, ABS, COMMON and HIRESERVE.
pub open spec fn is_reserved_index(i: usize) -> bool {
    i == 0 || (0xff00 <= i <= 0xff1f) || i == 0xfff1 || i == 0xfff2 || i == 0xffff
}

/// What one symbol contributes to a program.
pub enum Resolution {
    Skipped,
    Resolved(ItemView),
    Invalid(ParseError),
}

/// Offset of a symbol in the image: its section's file offset plus its
/// distance from the section's address.
pub open spec fn rom_offset(sec: SectionView, sym: SymbolView) -> int {
    sec.offset + (sym.value - sec.addr)
}

/// The item that a symbol stands for, if any, in `image` with `sections`.
pub open spec fn resolve(image: Seq<u8>, sections: Seq<SectionView>, sym: SymbolView) -> Resolution {
    if is_reserved_index(sym.section_index) {
        Resolution::Skipped
    } else if sym.section_index >= sections.len() {
        Resolution::Invalid(ParseError::SectionOutOfRange)
    } else {
        let sec = sections[sym.section_index as int];
        let rom = rom_offset(sec, sym);
        if sym.value < sec.addr || rom > u64::MAX {
            Resolution::Invalid(ParseError::AddressOutOfRange)
        } else if sym.size == 0 {
            Resolution::Skipped
        } else if sym.name is None || sym.name->0.len() == 0 {
            Resolution::Skipped
        } else if rom + sym.size > image.len() {
            Resolution::Invalid(ParseError::ContentOutOfRange)
        } else {
            Resolution::Resolved(
                ItemView {
                    name: sym.name->0,
                    section_name: sec.name,
                    ram_addr: sym.value,
                    rom_addr: rom as u64,
                    content: image.subrange(rom, rom + sym.size),
                },
            )
        }
    }
}

/// The items of the first `n` symbols, keyed by name, a later symbol
/// replacing an earlier one of the same name; or the error of the first
/// symbol that cannot be read.
pub open spec fn items_upto(image: Seq<u8>, t: ElfTablesView, n: nat) -> Result<
    Map<Seq<char>, ItemView>,
    ParseError,
>
    decreases n,
{
    if n == 0 {
        Ok(Map::empty())
    } else {
        match items_upto(image, t, (n - 1) as nat) {
            Err(e) => Err(e),
            Ok(m) => match resolve(image, t.sections, t.symbols[n - 1]) {
                Resolution::Skipped => Ok(m),
                Resolution::Resolved(it) => Ok(m.insert(it.name, it)),
                Resolution::Invalid(e) => Err(e),
            },
        }
    }
}

/// The items of all symbols of `t`.
pub open spec fn items_of(image: Seq<u8>, t: ElfTablesView) -> Result<
    Map<Seq<char>, ItemView>,
    ParseError,
> {
    items_upto(image, t, t.symbols.len())
}

/// The program that goblin's reading of `image` gives.
pub open spec fn program_of(image: Seq<u8>) -> Result<Map<Seq<char>, ItemView>, ParseError> {
    match elf_tables(image) {
        Some(t) => items_of(image, t),
        None => Err(ParseError::Malformed),
    }
}

/// Whether some item of `s` has name `k`.
pub open spec fn has_name(s: Seq<ItemView>, k: Seq<char>) -> bool {
    exists|i: int| 0 <= i < s.len() && (#[trigger] s[i]).name == k
}

/// The items of `s` keyed by name.
pub open spec fn map_of(s: Seq<ItemView>) -> Map<Seq<char>, ItemView> {
    Map::new(
        |k: Seq<char>| has_name(s, k),
        |k: Seq<char>| s[choose|i: int| 0 <= i < s.len() && (#[trigger] s[i]).name == k],
    )
}

/// No two items of `s` share a name.
pub open spec fn names_distinct(s: Seq<ItemView>) -> bool {
    forall|i: int, j: int|
        0 <= i < s.len() && 0 <= j < s.len() && i != j ==> (#[trigger] s[i]).name != (
        #[trigger] s[j]).name
}

/// The item at a place of a table without repeated names is the one that
/// its name maps to.
pub proof fn lemma_map_of_index(s: Seq<ItemView>, i: int)
    requires
        names_distinct(s),
        0 <= i < s.len(),
    ensures
        map_of(s).contains_key(s[i].name),
        map_of(s)[s[i].name] == s[i],
{
    let k = s[i].name;
    assert(has_name(s, k));
    let j = choose|j: int| 0 <= j < s.len() && (#[trigger] s[j]).name == k;
    assert(j == i);
}

/// Appending an item of a new name adds that name to the map.
pub proof fn lemma_map_of_push(s: Seq<ItemView>, it: ItemView)
    requires
        names_distinct(s),
        !has_name(s, it.name),
    ensures
        names_distinct(s.push(it)),
        map_of(s.push(it)) == map_of(s).insert(it.name, it),
{
    let t = s.push(it);
    assert forall|i: int, j: int|
        0 <= i < t.len() && 0 <= j < t.len() && i != j implies (#[trigger] t[i]).name != (
        #[trigger] t[j]).name by {
        if i < s.len() && j < s.len() {
            assert(s[i] == t[i] && s[j] == t[j]);
        } else if i < s.len() {
            assert(s[i] == t[i]);
        } else if j < s.len() {
            assert(s[j] == t[j]);
        }
    }
    let m = map_of(s).insert(it.name, it);
    assert forall|k: Seq<char>| #[trigger] map_of(t).contains_key(k) <==> m.contains_key(k) by {
        if has_name(s, k) {
            let i = choose|i: int| 0 <= i < s.len() && (#[trigger] s[i]).name == k;
            assert(t[i] == s[i]);
        }
        if has_name(t, k) && k != it.name {
            let i = choose|i: int| 0 <= i < t.len() && (#[trigger] t[i]).name == k;
            assert(s[i] == t[i]);
        }
        if k == it.name {
            assert(t[s.len() as int] == it);
        }
    }
    assert forall|k: Seq<char>| #[trigger] map_of(t).contains_key(k) implies map_of(t)[k] == m[k] by {
        let i = choose|i: int| 0 <= i < t.len() && (#[trigger] t[i]).name == k;
        lemma_map_of_index(t, i);
        if i < s.len() {
            assert(s[i] == t[i]);
            lemma_map_of_index(s, i);
        }
    }
    assert(map_of(t) =~= m);
}

/// Replacing the item of a name changes what that name maps to.
pub proof fn lemma_map_of_update(s: Seq<ItemView>, j: int, it: ItemView)
    requires
        names_distinct(s),
        0 <= j < s.len(),
        s[j].name == it.name,
    ensures
        names_distinct(s.update(j, it)),
        map_of(s.update(j, it)) == map_of(s).insert(it.name, it),
{
    let t = s.update(j, it);
    assert forall|a: int, b: int|
        0 <= a < t.len() && 0 <= b < t.len() && a != b implies (#[trigger] t[a]).name != (
        #[trigger] t[b]).name by {
        assert(t[a].name == s[a].name && t[b].name == s[b].name);
    }
    let m = map_of(s).insert(it.name, it);
    assert forall|k: Seq<char>| #[trigger] map_of(t).contains_key(k) <==> m.contains_key(k) by {
        if has_name(s, k) {
            let i = choose|i: int| 0 <= i < s.len() && (#[trigger] s[i]).name == k;
            assert(t[i].name == s[i].name);
        }
        if has_name(t, k) {
            let i = choose|i: int| 0 <= i < t.len() && (#[trigger] t[i]).name == k;
            assert(s[i].name == t[i].name);
        }
        if k == it.name {
            assert(t[j] == it);
        }
    }
    assert forall|k: Seq<char>| #[trigger] map_of(t).contains_key(k) implies map_of(t)[k] == m[k] by {
        let i = choose|i: int| 0 <= i < t.len() && (#[trigger] t[i]).name == k;
        lemma_map_of_index(t, i);
        if i != j {
            assert(s[i] == t[i]);
            lemma_map_of_index(s, i);
        }
    }
    assert(map_of(t) =~= m);
}

/// Once a symbol cannot be read, no later symbol changes the outcome.
pub proof fn lemma_error_persists(image: Seq<u8>, t: ElfTablesView, i: nat, n: nat)
    requires
        i <= n,
        items_upto(image, t, i) is Err,
    ensures
        items_upto(image, t, n) == items_upto(image, t, i),
    decreases n - i,
{
    if n > i {
        lemma_error_persists(image, t, i, (n - 1) as nat);
    }
}

/// Every item read from the first `n` symbols is keyed by its own name and
/// is what one of those symbols resolves to.
pub proof fn lemma_items_origin(image: Seq<u8>, t: ElfTablesView, n: nat)
    requires
        n <= t.symbols.len(),
        items_upto(image, t, n) is Ok,
    ensures
        forall|k: Seq<char>| #[trigger]
            items_upto(image, t, n)->Ok_0.contains_key(k) ==> {
                let it = items_upto(image, t, n)->Ok_0[k];
                &&& it.name == k
                &&& exists|i: int|
                    0 <= i < n && resolve(image, t.sections, #[trigger] t.symbols[i])
                        == Resolution::Resolved(it)
            },
    decreases n,
{
    if n > 0 {
        lemma_items_origin(image, t, (n - 1) as nat);
        let m = items_upto(image, t, (n - 1) as nat)->Ok_0;
        let mn = items_upto(image, t, n)->Ok_0;
        assert forall|k: Seq<char>| #[trigger] mn.contains_key(k) implies {
            let it = mn[k];
            &&& it.name == k
            &&& exists|i: int|
                0 <= i < n && resolve(image, t.sections, #[trigger] t.symbols[i])
                    == Resolution::Resolved(it)
        } by {
            match resolve(image, t.sections, t.symbols[n - 1]) {
                Resolution::Resolved(it) => {
                    if k == it.name {
                        assert(resolve(image, t.sections, t.symbols[n - 1]) == Resolution::Resolved(
                            mn[k],
                        ));
                    } else {
                        assert(m.contains_key(k));
                        let i = choose|i: int|
                            0 <= i < n - 1 && resolve(image, t.sections, #[trigger] t.symbols[i])
                                == Resolution::Resolved(m[k]);
                        assert(resolve(image, t.sections, t.symbols[i]) == Resolution::Resolved(
                            mn[k],
                        ));
                    }
                },
                _ => {
                    let i = choose|i: int|
                        0 <= i < n - 1 && resolve(image, t.sections, #[trigger] t.symbols[i])
                            == Resolution::Resolved(m[k]);
                    assert(resolve(image, t.sections, t.symbols[i]) == Resolution::Resolved(mn[k]));
                },
            }
        }
    }
}

/// The content of every item is the slice of the image at its ROM address.
pub proof fn lemma_content_is_image_slice(image: Seq<u8>, t: ElfTablesView, k: Seq<char>)
    requires
        items_of(image, t) matches Ok(m) && m.contains_key(k),
    ensures
        ({
            let it = items_of(image, t)->Ok_0[k];
            &&& it.rom_addr + it.content.len() <= image.len()
            &&& it.content == image.subrange(
                it.rom_addr as int,
                it.rom_addr + it.content.len(),
            )
        }),
{
    lemma_items_origin(image, t, t.symbols.len());
}

/// Every item lies as far from the start of its section in memory as it does
/// in the image.
pub proof fn lemma_addresses_agree(image: Seq<u8>, t: ElfTablesView, k: Seq<char>)
    requires
        items_of(image, t) matches Ok(m) && m.contains_key(k),
    ensures
        ({
            let it = items_of(image, t)->Ok_0[k];
            exists|s: int|
                0 <= s < t.sections.len() && t.sections[s].name == it.section_name
                    && t.sections[s].addr <= it.ram_addr && t.sections[s].offset <= it.rom_addr
                    && it.ram_addr - (#[trigger] t.sections[s]).addr == it.rom_addr
                    - t.sections[s].offset
        }),
{
    lemma_items_origin(image, t, t.symbols.len());
    let it = items_of(image, t)->Ok_0[k];
    let i = choose|i: int|
        0 <= i < t.symbols.len() && resolve(image, t.sections, #[trigger] t.symbols[i])
            == Resolution::Resolved(it);
    let s = t.symbols[i].section_index as int;
    assert(0 <= s < t.sections.len() && t.sections[s].name == it.section_name);
}

/// No item is empty.
pub proof fn lemma_items_not_empty(image: Seq<u8>, t: ElfTablesView, k: Seq<char>)
    requires
        items_of(image, t) matches Ok(m) && m.contains_key(k),
    ensures
        items_of(image, t)->Ok_0[k].content.len() > 0,
{
    lemma_items_origin(image, t, t.symbols.len());
}

/// Every item comes from a symbol whose section index is not reserved.
pub proof fn lemma_no_reserved_section(image: Seq<u8>, t: ElfTablesView, k: Seq<char>)
    requires
        items_of(image, t) matches Ok(m) && m.contains_key(k),
    ensures
        exists|i: int|
            0 <= i < t.symbols.len() && !is_reserved_index(t.symbols[i].section_index)
                && resolve(image, t.sections, #[trigger] t.symbols[i]) == Resolution::Resolved(
                items_of(image, t)->Ok_0[k],
            ),
{
    lemma_items_origin(image, t, t.symbols.len());
}

fn copy_text(o: &Option<String>) -> (r: Option<String>)
    ensures
        text_view(r) == text_view(*o),
{
    match o {
        Some(s) => Some(s.clone()),
        None => None,
    }
}

/// The item that one symbol stands for, or `None` for a symbol that is
/// skipped, or the error of a symbol that cannot be read.
fn resolve_symbol(image: &[u8], sections: &Vec<SectionEntry>, sym: &SymbolEntry) -> (r:
    Result<Option<Item>, ParseError>)
    ensures
        match resolve(image@, sections@.map_values(|s: SectionEntry| s@), sym@) {
            Resolution::Skipped => r matches Ok(None),
            Resolution::Resolved(it) => r matches Ok(Some(i)) && i@ == it,
            Resolution::Invalid(e) => r matches Err(x) && x == e,
        },
{
    let ghost views = sections@.map_values(|s: SectionEntry| s@);
    let idx = sym.section_index;
    if idx == 0 || (0xff00 <= idx && idx <= 0xff1f) || idx == 0xfff1 || idx == 0xfff2 || idx
        == 0xffff {
        return Ok(None);
    }
    if idx >= sections.len() {
        return Err(ParseError::SectionOutOfRange);
    }
    let sec = &sections[idx];
    assert(views[idx as int] == sec@);
    if sym.value < sec.addr {
        return Err(ParseError::AddressOutOfRange);
    }
    let distance = sym.value - sec.addr;
    if sec.offset > u64::MAX - distance {
        return Err(ParseError::AddressOutOfRange);
    }
    let rom = sec.offset + distance;
    if sym.size == 0 {
        return Ok(None);
    }
    let name = match &sym.name {
        Some(n) => n,
        None => {
            return Ok(None);
        },
    };
    if name.as_str().is_empty() {
        return Ok(None);
    }
    let len = image.len() as u64;
    if rom > len || sym.size > len - rom {
        return Err(ParseError::ContentOutOfRange);
    }
    let end = rom + sym.size;
    let content = crate::gdb::copy_range(image, rom as usize, end as usize);
    Ok(
        Some(
            Item {
                name: name.clone(),
                section_name: copy_text(&sec.name),
                ram_addr: sym.value,
                rom_addr: rom,
                content,
            },
        ),
    )
}

/// The place of the item named `name`, if any.
pub(crate) fn position_of(items: &Vec<Item>, name: &String) -> (r: Option<usize>)
    ensures
        match r {
            Some(j) => j < items@.len() && items@[j as int].name@ == name@,
            None => !has_name(items@.map_values(|i: Item| i@), name@),
        },
{
    let mut i: usize = 0;
    while i < items.len()
        invariant
            i <= items@.len(),
            forall|j: int| 0 <= j < i ==> (#[trigger] items@[j]).name@ != name@,
        decreases items@.len() - i,
    {
        if items[i].name == *name {
            return Some(i);
        }
        i += 1;
    }
    let ghost views = items@.map_values(|i: Item| i@);
    assert forall|j: int| 0 <= j < views.len() implies (#[trigger] views[j]).name != name@ by {
        assert(views[j] == items@[j]@);
    }
    None
}

/// A table of items keyed by name, read from one ELF image.
#[derive(Debug, Clone)]
pub struct Program {
    pub items: Vec<Item>,
}

impl View for Program {
    type V = Map<Seq<char>, ItemView>;

    open spec fn view(&self) -> Map<Seq<char>, ItemView> {
        map_of(self.item_views())
    }
}

impl Program {
    pub open spec fn item_views(&self) -> Seq<ItemView> {
        self.items@.map_values(|i: Item| i@)
    }

    /// No two items share a name.
    pub open spec fn wf(&self) -> bool {
        names_distinct(self.item_views())
    }

    /// Reads the program of an ELF image: each symbol in a real section, with
    /// a size and a name, becomes an item; a later symbol of the same name
    /// replaces an earlier one.
    pub fn new(image: &[u8]) -> (r: Result<Program, ParseError>)
        ensures
            match program_of(image@) {
                Ok(m) => r matches Ok(p) && p.wf() && p@ == m,
                Err(e) => r matches Err(x) && x == e,
            },
    {
        match read_elf_tables(image) {
            Ok(t) => Program::from_tables(image, &t),
            Err(_) => Err(ParseError::Malformed),
        }
    }

    /// Builds the program of `image` from its symbol and section tables.
    pub fn from_tables(image: &[u8], tables: &ElfTables) -> (r: Result<Program, ParseError>)
        ensures
            match items_of(image@, tables@) {
                Ok(m) => r matches Ok(p) && p.wf() && p@ == m,
                Err(e) => r matches Err(x) && x == e,
            },
    {
        let ghost t = tables@;
        let mut items: Vec<Item> = Vec::new();
        let mut i: usize = 0;
        assert(items@.map_values(|i: Item| i@) =~= Seq::<ItemView>::empty());
        assert(map_of(Seq::<ItemView>::empty()) =~= Map::<Seq<char>, ItemView>::empty());
        while i < tables.symbols.len()
            invariant
                t == tables@,
                i <= tables.symbols@.len(),
                names_distinct(items@.map_values(|i: Item| i@)),
                items_upto(image@, t, i as nat) == Ok::<Map<Seq<char>, ItemView>, ParseError>(
                    map_of(items@.map_values(|i: Item| i@)),
                ),
            decreases tables.symbols@.len() - i,
        {
            let ghost before = items@.map_values(|i: Item| i@);
            assert(t.symbols[i as int] == tables.symbols@[i as int]@);
            match resolve_symbol(image, &tables.sections, &tables.symbols[i]) {
                Err(e) => {
                    proof {
                        lemma_error_persists(image@, t, (i + 1) as nat, t.symbols.len());
                    }
                    return Err(e);
                },
                Ok(None) => {},
                Ok(Some(item)) => {
                    let ghost iv = item@;
                    match position_of(&items, &item.name) {
                        Some(j) => {
                            items.set(j, item);
                            assert(items@.map_values(|i: Item| i@) =~= before.update(j as int, iv));
                            proof {
                                lemma_map_of_update(before, j as int, iv);
                            }
                        },
                        None => {
                            items.push(item);
                            assert(items@.map_values(|i: Item| i@) =~= before.push(iv));
                            proof {
                                lemma_map_of_push(before, iv);
                            }
                        },
                    }
                },
            }
            i += 1;
        }
        Ok(Program { items })
    }

    /// The number of items.
    pub fn len(&self) -> (r: usize)
        ensures
            r == self.items@.len(),
    {
        self.items.len()
    }
}

/// One machine instruction of an item's code.
#[derive(Debug, Clone)]
pub struct Instruction {
    pub address: u64,
    pub mnemonic: Option<String>,
    pub operands: Option<String>,
}

pub struct InstructionView {
    pub address: u64,
    pub mnemonic: Option<Seq<char>>,
    pub operands: Option<Seq<char>>,
}

impl View for Instruction {
    type V = InstructionView;

    open spec fn view(&self) -> InstructionView {
        InstructionView {
            address: self.address,
            mnemonic: text_view(self.mnemonic),
            operands: text_view(self.operands),
        }
    }
}

/// How an item reads to a person: as text when its bytes are UTF-8, as MIPS
/// code otherwise.
#[derive(Debug, Clone)]
pub enum Disassembly {
    Text(String),
    Code(Vec<Instruction>),
}

/// What capstone's big-endian MIPS64 disassembler makes of `code` placed at
/// `address`: its instructions, or `None` when it fails.
pub uninterp spec fn mips_instructions(code: Seq<u8>, address: u64) -> Option<Seq<InstructionView>>;

/// Relies on capstone: a `Capstone` built for big-endian MIPS64 with details
/// on, and its `disasm_all`, each instruction taken with its `address`,
/// `mnemonic` and `op_str`. The outcome depends on the arguments alone.
#[verifier::external_body]
fn disassemble_mips(code: &[u8], address: u64) -> (r: core::result::Result<Vec<Instruction>, CapstoneError>)
    ensures
        match r {
            Ok(v) => mips_instructions(code@, address) == Some(v@.map_values(|i: Instruction| i@)),
            Err(_) => mips_instructions(code@, address) is None,
        },
{
    let cs = capstone::Capstone::new().mips().mode(ArchMode::Mips64).endian(capstone::Endian::Big)
        .detail(true).build()?;
    let insns = cs.disasm_all(code, address)?;
    Ok(insns.iter().map(|i| Instruction {
        address: i.address(),
        mnemonic: i.mnemonic().map(String::from),
        operands: i.op_str().map(String::from),
    }).collect())
}

/// The lower-case ASCII hex digit of `d` (`d < 16`).
pub open spec fn lower_digit(d: nat) -> u8 {
    if d < 10 {
        (48 + d) as u8
    } else {
        (87 + d) as u8
    }
}

/// Lower-case hex of `n` with no leading zeros.
pub open spec fn lower_hex(n: nat) -> Seq<u8>
    decreases n,
{
    if n < 16 {
        seq![lower_digit(n)]
    } else {
        lower_hex(n / 16).push(lower_digit(n % 16))
    }
}

/// `s` led by zeros up to `width` characters.
pub open spec fn zero_padded(s: Seq<u8>, width: nat) -> Seq<u8> {
    if s.len() >= width {
        s
    } else {
        Seq::new((width - s.len()) as nat, |_i: int| 48u8) + s
    }
}

/// The hex dump of the first `n` bytes of `c`, which starts at offset `rom`:
/// sixteen bytes to a line, each line led by a line break and the offset of
/// its first byte in eight or more hex digits, each byte two hex digits and
/// a space.
pub open spec fn dump_upto(rom: u64, c: Seq<u8>, n: nat) -> Seq<u8>
    decreases n,
{
    if n == 0 {
        Seq::empty()
    } else {
        let i = (n - 1) as nat;
        let head = if i % 16 == 0 {
            seq![10u8] + zero_padded(lower_hex((rom + i) as nat), 8) + seq![32u8, 32u8]
        } else {
            Seq::empty()
        };
        dump_upto(rom, c, i) + head + seq![
            lower_digit(c[i as int] as nat / 16),
            lower_digit(c[i as int] as nat % 16),
            32u8,
        ]
    }
}

/// The whole hex dump of `c` at offset `rom`, ending in a line break.
pub open spec fn hex_dump_of(rom: u64, c: Seq<u8>) -> Seq<u8> {
    dump_upto(rom, c, c.len()) + seq![10u8]
}

fn lower_digit_exec(d: u8) -> (r: u8)
    requires
        d < 16,
    ensures
        r == lower_digit(d as nat),
{
    if d < 10 {
        48 + d
    } else {
        87 + d
    }
}

fn push_lower_hex(out: &mut Vec<u8>, n: u64)
    ensures
        final(out)@ == old(out)@ + lower_hex(n as nat),
    decreases n,
{
    if n < 16 {
        out.push(lower_digit_exec(n as u8));
    } else {
        push_lower_hex(out, n / 16);
        out.push(lower_digit_exec((n % 16) as u8));
    }
    assert(final(out)@ =~= old(out)@ + lower_hex(n as nat));
}

fn push_padded_hex(out: &mut Vec<u8>, n: u64)
    ensures
        final(out)@ == old(out)@ + zero_padded(lower_hex(n as nat), 8),
{
    let mut digits: Vec<u8> = Vec::new();
    push_lower_hex(&mut digits, n);
    assert(digits@ =~= lower_hex(n as nat));
    let ghost start = out@;
    let mut k: usize = digits.len();
    while k < 8
        invariant
            digits@.len() <= k,
            k <= 8 || k == digits@.len(),
            out@ == start + Seq::new((k - digits@.len()) as nat, |_i: int| 48u8),
        decreases 8 - k,
    {
        out.push(48u8);
        k += 1;
        assert(out@ =~= start + Seq::new((k - digits@.len()) as nat, |_i: int| 48u8));
    }
    let ghost zeros = out@;
    let mut j: usize = 0;
    while j < digits.len()
        invariant
            j <= digits@.len(),
            out@ == zeros + digits@.subrange(0, j as int),
        decreases digits@.len() - j,
    {
        out.push(digits[j]);
        j += 1;
        assert(out@ =~= zeros + digits@.subrange(0, j as int));
    }
    assert(digits@.subrange(0, digits@.len() as int) =~= digits@);
    if digits.len() >= 8 {
        assert(zeros =~= start);
    } else {
        assert(zeros =~= start + Seq::new((8 - digits@.len()) as nat, |_i: int| 48u8));
    }
    assert(out@ =~= start + zero_padded(lower_hex(n as nat), 8));
}

/// Whether two byte strings are equal.
fn bytes_equal(a: &[u8], b: &[u8]) -> (r: bool)
    ensures
        r == (a@ == b@),
{
    if a.len() != b.len() {
        return false;
    }
    let mut i: usize = 0;
    while i < a.len()
        invariant
            a@.len() == b@.len(),
            i <= a@.len(),
            forall|j: int| 0 <= j < i ==> a@[j] == b@[j],
        decreases a@.len() - i,
    {
        if a[i] != b[i] {
            return false;
        }
        i += 1;
    }
    assert(a@ =~= b@);
    true
}

/// Whether two optional texts are equal.
pub(crate) fn texts_equal(a: &Option<String>, b: &Option<String>) -> (r: bool)
    ensures
        r == (text_view(*a) == text_view(*b)),
{
    match (a, b) {
        (Some(x), Some(y)) => *x == *y,
        (None, None) => true,
        _ => false,
    }
}

impl PartialEq for Item {
    /// Items are equal when their section, both addresses and their bytes
    /// agree.
    fn eq(&self, other: &Item) -> (r: bool)
        ensures
            r == same_item(self@, other@),
    {
        self.same_as(other)
    }
}

impl vstd::std_specs::cmp::PartialEqSpecImpl for Item {
    open spec fn obeys_eq_spec() -> bool {
        true
    }

    open spec fn eq_spec(&self, other: &Item) -> bool {
        same_item(self@, other@)
    }
}

impl Item {
    /// Whether `self` and `other` are the same item: same section, same
    /// addresses and same bytes.
    pub fn same_as(&self, other: &Item) -> (r: bool)
        ensures
            r == same_item(self@, other@),
    {
        texts_equal(&self.section_name, &other.section_name) && self.ram_addr == other.ram_addr
            && self.rom_addr == other.rom_addr && bytes_equal(
            self.content.as_slice(),
            other.content.as_slice(),
        )
    }

    /// A copy of the item.
    pub fn copy(&self) -> (r: Item)
        ensures
            r@ == self@,
    {
        let content = crate::gdb::copy_range(self.content.as_slice(), 0, self.content.len());
        assert(content@ =~= self.content@);
        Item {
            name: self.name.clone(),
            section_name: copy_text(&self.section_name),
            ram_addr: self.ram_addr,
            rom_addr: self.rom_addr,
            content,
        }
    }

    /// The item as text when its bytes are UTF-8; otherwise its bytes as
    /// MIPS code at its RAM address.
    pub fn disassemble(&self) -> (r: core::result::Result<Disassembly, CapstoneError>)
        ensures
            match utf8_text(self.content@) {
                Some(t) => r matches Ok(Disassembly::Text(s)) && s@ == t,
                None => match mips_instructions(self.content@, self.ram_addr) {
                    Some(code) => r matches Ok(Disassembly::Code(v)) && v@.map_values(
                        |i: Instruction| i@,
                    ) == code,
                    None => r is Err,
                },
            },
    {
        match text_of(self.content.as_slice()) {
            Some(t) => Ok(Disassembly::Text(t)),
            None => match disassemble_mips(self.content.as_slice(), self.ram_addr) {
                Ok(v) => Ok(Disassembly::Code(v)),
                Err(e) => Err(e),
            },
        }
    }

    /// The item's bytes as a hex dump, sixteen to a line, each line led by
    /// the ROM address of its first byte.
    pub fn hex_dump(&self) -> (r: Vec<u8>)
        requires
            self.rom_addr + self.content@.len() <= u64::MAX,
        ensures
            r@ == hex_dump_of(self.rom_addr, self.content@),
    {
        let mut out: Vec<u8> = Vec::new();
        let mut i: usize = 0;
        while i < self.content.len()
            invariant
                i <= self.content@.len(),
                self.rom_addr + self.content@.len() <= u64::MAX,
                out@ == dump_upto(self.rom_addr, self.content@, i as nat),
            decreases self.content@.len() - i,
        {
            let ghost before = out@;
            if i % 16 == 0 {
                out.push(10u8);
                push_padded_hex(&mut out, self.rom_addr + i as u64);
                out.push(32u8);
                out.push(32u8);
            }
            let b = self.content[i];
            out.push(lower_digit_exec(b / 16));
            out.push(lower_digit_exec(b % 16));
            out.push(32u8);
            assert(out@ =~= dump_upto(self.rom_addr, self.content@, (i + 1) as nat));
            i += 1;
        }
        out.push(10u8);
        out
    }

    /// The number of bytes of the item.
    pub fn size(&self) -> (r: usize)
        ensures
            r == self.content@.len(),
    {
        self.content.len()
    }
}

} // verus!
