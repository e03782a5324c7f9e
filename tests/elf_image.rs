use hotload::diff::{diff, Diff};
use hotload::gdb::{encode_packet, write_memory_outcome, write_memory_request};
use hotload::patch::{self, check_edit, plan};
use hotload::program::{Disassembly, ParseError, Program};
use hotload::supervisor::{BuildResult, Outcome, Step, Supervisor};

const TEXT_ADDR: u32 = 0x8000_0400;
const TEXT_OFFSET: u32 = 52;

struct Sym {
    name: &'static str,
    value: u32,
    size: u32,
    shndx: u16,
}

fn be16(out: &mut Vec<u8>, v: u16) {
    out.extend_from_slice(&v.to_be_bytes());
}

fn be32(out: &mut Vec<u8>, v: u32) {
    out.extend_from_slice(&v.to_be_bytes());
}

/// A big-endian 32-bit MIPS executable with one `.text` section holding
/// `text` at `TEXT_ADDR`, and the given symbols.
fn build_elf(text: &[u8], syms: &[Sym]) -> Vec<u8> {
    let mut strtab = vec![0u8];
    let mut name_offsets = Vec::new();
    for s in syms {
        name_offsets.push(strtab.len() as u32);
        strtab.extend_from_slice(s.name.as_bytes());
        strtab.push(0);
    }
    let shstrtab = b"\0.text\0.symtab\0.strtab\0.shstrtab\0".to_vec();
    let mut symtab = vec![0u8; 16];
    for (s, off) in syms.iter().zip(&name_offsets) {
        be32(&mut symtab, *off);
        be32(&mut symtab, s.value);
        be32(&mut symtab, s.size);
        symtab.push(0x12);
        symtab.push(0);
        be16(&mut symtab, s.shndx);
    }

    let text_off = TEXT_OFFSET as usize;
    let mut symtab_off = text_off + text.len();
    symtab_off += (4 - symtab_off % 4) % 4;
    let strtab_off = symtab_off + symtab.len();
    let shstrtab_off = strtab_off + strtab.len();
    let mut shoff = shstrtab_off + shstrtab.len();
    shoff += (4 - shoff % 4) % 4;

    let mut out = Vec::new();
    out.extend_from_slice(&[0x7f, b'E', b'L', b'F', 1, 2, 1, 0]);
    out.extend_from_slice(&[0; 8]);
    be16(&mut out, 2); // executable
    be16(&mut out, 8); // MIPS
    be32(&mut out, 1);
    be32(&mut out, TEXT_ADDR);
    be32(&mut out, 0);
    be32(&mut out, shoff as u32);
    be32(&mut out, 0);
    be16(&mut out, 52);
    be16(&mut out, 32);
    be16(&mut out, 0);
    be16(&mut out, 40);
    be16(&mut out, 5);
    be16(&mut out, 4);
    assert_eq!(out.len(), text_off);
    out.extend_from_slice(text);
    out.resize(symtab_off, 0);
    out.extend_from_slice(&symtab);
    out.extend_from_slice(&strtab);
    out.extend_from_slice(&shstrtab);
    out.resize(shoff, 0);

    let headers: [(u32, u32, u32, u32, usize, usize, u32, u32, u32); 5] = [
        (0, 0, 0, 0, 0, 0, 0, 0, 0),
        (1, 1, 6, TEXT_ADDR, text_off, text.len(), 0, 0, 0),
        (7, 2, 0, 0, symtab_off, symtab.len(), 3, 1, 16),
        (15, 3, 0, 0, strtab_off, strtab.len(), 0, 0, 0),
        (23, 3, 0, 0, shstrtab_off, shstrtab.len(), 0, 0, 0),
    ];
    for (name, ty, flags, addr, off, size, link, info, entsize) in headers {
        be32(&mut out, name);
        be32(&mut out, ty);
        be32(&mut out, flags);
        be32(&mut out, addr);
        be32(&mut out, off as u32);
        be32(&mut out, size as u32);
        be32(&mut out, link);
        be32(&mut out, info);
        be32(&mut out, 4);
        be32(&mut out, entsize);
    }
    out
}

fn foo(size: u32) -> Sym {
    Sym { name: "foo", value: TEXT_ADDR, size, shndx: 1 }
}

fn find<'a>(p: &'a Program, name: &str) -> Option<&'a hotload::program::Item> {
    p.items.iter().find(|i| i.name == name)
}

#[test]
fn parses_one_text_symbol() {
    let image = build_elf(&[1, 2, 3, 4], &[foo(4)]);
    let p = Program::new(&image).unwrap();
    assert_eq!(p.len(), 1);
    let it = find(&p, "foo").unwrap();
    assert_eq!(it.section_name.as_deref(), Some(".text"));
    assert_eq!(it.ram_addr, TEXT_ADDR as u64);
    assert_eq!(it.rom_addr, TEXT_OFFSET as u64);
    assert_eq!(it.content, vec![1, 2, 3, 4]);
    assert_eq!(it.size(), 4);
}

#[test]
fn content_is_the_image_slice() {
    let text = [9, 8, 7, 6, 5, 4, 3, 2];
    let image = build_elf(&text, &[foo(4), Sym { name: "bar", value: TEXT_ADDR + 4, size: 4, shndx: 1 }]);
    let p = Program::new(&image).unwrap();
    for it in &p.items {
        let rom = it.rom_addr as usize;
        assert_eq!(&image[rom..rom + it.size()], it.content.as_slice());
    }
    let bar = find(&p, "bar").unwrap();
    assert_eq!(bar.content, vec![5, 4, 3, 2]);
    assert_eq!(bar.rom_addr, TEXT_OFFSET as u64 + 4);
}

#[test]
fn addresses_agree_with_the_section() {
    let image = build_elf(&[0; 12], &[Sym { name: "baz", value: TEXT_ADDR + 8, size: 4, shndx: 1 }]);
    let p = Program::new(&image).unwrap();
    let it = find(&p, "baz").unwrap();
    assert_eq!(it.ram_addr - TEXT_ADDR as u64, it.rom_addr - TEXT_OFFSET as u64);
}

#[test]
fn empty_symbols_are_left_out() {
    let image = build_elf(&[0; 4], &[foo(4), Sym { name: "marker", value: TEXT_ADDR, size: 0, shndx: 1 }]);
    let p = Program::new(&image).unwrap();
    assert_eq!(p.len(), 1);
    assert!(find(&p, "marker").is_none());
    assert!(p.items.iter().all(|i| i.size() > 0));
}

#[test]
fn reserved_sections_are_left_out() {
    let image = build_elf(
        &[0; 4],
        &[
            foo(4),
            Sym { name: "absolute", value: 16, size: 4, shndx: 0xfff1 },
            Sym { name: "common", value: 16, size: 4, shndx: 0xfff2 },
            Sym { name: "undefined", value: 0, size: 4, shndx: 0 },
            Sym { name: "processor", value: 0, size: 4, shndx: 0xff00 },
            Sym { name: "hireserve", value: 0, size: 4, shndx: 0xffff },
        ],
    );
    let p = Program::new(&image).unwrap();
    assert_eq!(p.len(), 1);
    assert!(find(&p, "foo").is_some());
}

#[test]
fn later_symbol_of_a_name_wins() {
    let image = build_elf(
        &[1, 2, 3, 4, 5, 6, 7, 8],
        &[foo(4), Sym { name: "foo", value: TEXT_ADDR + 4, size: 4, shndx: 1 }],
    );
    let p = Program::new(&image).unwrap();
    assert_eq!(p.len(), 1);
    assert_eq!(find(&p, "foo").unwrap().content, vec![5, 6, 7, 8]);
}

#[test]
fn garbage_is_malformed() {
    assert_eq!(Program::new(&[1, 2, 3, 4, 5]).unwrap_err(), ParseError::Malformed);
    assert_eq!(Program::new(&[]).unwrap_err(), ParseError::Malformed);
}

#[test]
fn content_past_the_image_is_an_error() {
    let image = build_elf(&[0; 4], &[Sym { name: "huge", value: TEXT_ADDR, size: 0x10000, shndx: 1 }]);
    assert_eq!(Program::new(&image).unwrap_err(), ParseError::ContentOutOfRange);
}

#[test]
fn missing_section_is_an_error() {
    let image = build_elf(&[0; 4], &[Sym { name: "lost", value: TEXT_ADDR, size: 4, shndx: 9 }]);
    assert_eq!(Program::new(&image).unwrap_err(), ParseError::SectionOutOfRange);
}

#[test]
fn address_before_section_is_an_error() {
    let image = build_elf(&[0; 4], &[Sym { name: "early", value: TEXT_ADDR - 4, size: 4, shndx: 1 }]);
    assert_eq!(Program::new(&image).unwrap_err(), ParseError::AddressOutOfRange);
}


#[test]
fn no_op_cycle() {
    let image = build_elf(&[0, 0, 0, 0], &[foo(4)]);
    let old = Program::new(&image).unwrap();
    let new = Program::new(&image).unwrap();
    let d = diff(&old, &new);
    assert!(d.is_empty());
    let p = plan(&d);
    assert!(p.writes.is_empty());
    assert!(p.supported);
    let sup = Supervisor::new(old);
    assert!(matches!(sup.after_build(BuildResult::Built(image)), Step::Done(Outcome::Unchanged)));
}

#[test]
fn in_place_code_change() {
    let old = Program::new(&build_elf(&[0, 0, 0, 0], &[foo(4)])).unwrap();
    let new = Program::new(&build_elf(&[0xDE, 0xAD, 0xBE, 0xEF], &[foo(4)])).unwrap();
    let d = diff(&old, &new);
    assert_eq!(d.len(), 1);
    assert!(matches!(&d[0], Diff::Changed(o, n) if o.name == "foo" && n.content == vec![0xDE, 0xAD, 0xBE, 0xEF]));
    let p = plan(&d);
    assert!(p.supported);
    assert_eq!(p.writes.len(), 1);
    assert_eq!(p.writes[0].address, TEXT_ADDR as u64);
    assert_eq!(p.writes[0].data, vec![0xDE, 0xAD, 0xBE, 0xEF]);
    let payload = write_memory_request(p.writes[0].address, &p.writes[0].data);
    assert_eq!(payload, b"M80000400,4:DEADBEEF".to_vec());
    let packet = encode_packet(&payload);
    assert_eq!(&packet[..21], b"$M80000400,4:DEADBEEF");
    assert_eq!(packet[21], b'#');
    assert_eq!(write_memory_outcome(b"+$OK#9a"), Ok(()));
}

#[test]
fn size_change_rejected() {
    let old = Program::new(&build_elf(&[0; 8], &[foo(4)])).unwrap();
    let new = Program::new(&build_elf(&[0; 8], &[foo(8)])).unwrap();
    let d = diff(&old, &new);
    assert_eq!(d.len(), 1);
    assert!(matches!(check_edit(&d[0]), Err(patch::Error::NotSupported)));
    let p = plan(&d);
    assert!(!p.supported);
    assert!(p.writes.is_empty());
}

#[test]
fn symbol_added_rejected() {
    let old = Program::new(&build_elf(&[0; 8], &[foo(4)])).unwrap();
    let bar = Sym { name: "bar", value: TEXT_ADDR + 4, size: 4, shndx: 1 };
    let new = Program::new(&build_elf(&[0; 8], &[foo(4), bar])).unwrap();
    let d = diff(&old, &new);
    assert_eq!(d.len(), 1);
    assert!(matches!(&d[0], Diff::Added(n) if n.name == "bar"));
    let p = plan(&d);
    assert!(!p.supported);
    assert!(p.writes.is_empty());
}

#[test]
fn symbol_removed_rejected() {
    let bar = Sym { name: "bar", value: TEXT_ADDR + 4, size: 4, shndx: 1 };
    let old = Program::new(&build_elf(&[0; 8], &[foo(4), bar])).unwrap();
    let new = Program::new(&build_elf(&[0; 8], &[foo(4)])).unwrap();
    let d = diff(&old, &new);
    assert_eq!(d.len(), 1);
    assert!(matches!(&d[0], Diff::Removed(o) if o.name == "bar"));
    assert!(matches!(check_edit(&d[0]), Err(patch::Error::NotSupported)));
    assert!(plan(&d).writes.is_empty());
}

#[test]
fn moved_item_rejected() {
    let old = Program::new(&build_elf(&[0; 8], &[foo(4)])).unwrap();
    let moved = Sym { name: "foo", value: TEXT_ADDR + 4, size: 4, shndx: 1 };
    let new = Program::new(&build_elf(&[0; 8], &[moved])).unwrap();
    let d = diff(&old, &new);
    assert_eq!(d.len(), 1);
    assert!(matches!(check_edit(&d[0]), Err(patch::Error::NotSupported)));
}

#[test]
fn diff_classifies_every_name() {
    let old = Program::new(&build_elf(
        &[1, 2, 3, 4, 5, 6, 7, 8, 9, 10, 11, 12],
        &[
            foo(4),
            Sym { name: "same", value: TEXT_ADDR + 4, size: 4, shndx: 1 },
            Sym { name: "gone", value: TEXT_ADDR + 8, size: 4, shndx: 1 },
        ],
    ))
    .unwrap();
    let new = Program::new(&build_elf(
        &[0, 2, 3, 4, 5, 6, 7, 8, 9, 10, 11, 12],
        &[
            foo(4),
            Sym { name: "same", value: TEXT_ADDR + 4, size: 4, shndx: 1 },
            Sym { name: "fresh", value: TEXT_ADDR + 8, size: 4, shndx: 1 },
        ],
    ))
    .unwrap();
    let d = diff(&old, &new);
    assert_eq!(d.len(), 3);
    assert_eq!(d.iter().filter(|e| matches!(e, Diff::Changed(o, _) if o.name == "foo")).count(), 1);
    assert_eq!(d.iter().filter(|e| matches!(e, Diff::Removed(o) if o.name == "gone")).count(), 1);
    assert_eq!(d.iter().filter(|e| matches!(e, Diff::Added(n) if n.name == "fresh")).count(), 1);
}

#[test]
fn writes_stop_at_the_first_unsupported_edit() {
    let old = Program::new(&build_elf(&[0; 8], &[foo(4)])).unwrap();
    let changed = Program::new(&build_elf(&[1, 1, 1, 1, 0, 0, 0, 0], &[foo(4)])).unwrap();
    let grown = Program::new(&build_elf(&[0; 8], &[foo(8)])).unwrap();
    let mut edits = diff(&old, &changed);
    edits.extend(diff(&old, &grown));
    edits.extend(diff(&old, &changed));
    let p = plan(&edits);
    assert!(!p.supported);
    assert_eq!(p.writes.len(), 1);
    assert_eq!(p.writes[0].data, vec![1, 1, 1, 1]);
}

#[test]
fn build_failure_keeps_the_program() {
    let image = build_elf(&[0; 4], &[foo(4)]);
    let sup = Supervisor::new(Program::new(&image).unwrap());
    assert!(matches!(sup.after_build(BuildResult::Failed), Step::Done(Outcome::BuildFailed)));
    assert_eq!(sup.program.len(), 1);
}

#[test]
fn unreadable_build_is_reported() {
    let sup = Supervisor::new(Program::new(&build_elf(&[0; 4], &[foo(4)])).unwrap());
    assert!(matches!(
        sup.after_build(BuildResult::Built(vec![0; 3])),
        Step::Done(Outcome::ParseFailed(ParseError::Malformed))
    ));
}

#[test]
fn patched_program_becomes_the_loaded_one() {
    let mut sup = Supervisor::new(Program::new(&build_elf(&[0; 4], &[foo(4)])).unwrap());
    let step = sup.after_build(BuildResult::Built(build_elf(&[7, 7, 7, 7], &[foo(4)])));
    let update = match step {
        Step::Patch(u) => u,
        Step::Done(_) => panic!("expected a patch"),
    };
    assert_eq!(update.diffs.len(), 1);
    assert_eq!(update.plan.writes.len(), 1);
    assert_eq!(sup.finish(update, Ok(())), Outcome::Patched);
    assert_eq!(find(&sup.program, "foo").unwrap().content, vec![7, 7, 7, 7]);
    let again = sup.after_build(BuildResult::Built(build_elf(&[7, 7, 7, 7], &[foo(4)])));
    assert!(matches!(again, Step::Done(Outcome::Unchanged)));
}

#[test]
fn failed_patch_keeps_the_old_program() {
    let mut sup = Supervisor::new(Program::new(&build_elf(&[0; 4], &[foo(4)])).unwrap());
    let update = match sup.after_build(BuildResult::Built(build_elf(&[7, 7, 7, 7], &[foo(4)]))) {
        Step::Patch(u) => u,
        Step::Done(_) => panic!("expected a patch"),
    };
    assert_eq!(
        sup.finish(update, Err(patch::Error::NotSupported)),
        Outcome::PatchFailed(patch::Error::NotSupported)
    );
    assert_eq!(find(&sup.program, "foo").unwrap().content, vec![0, 0, 0, 0]);
}

#[test]
fn text_items_read_as_text() {
    let image = build_elf(b"hey!", &[Sym { name: "greeting", value: TEXT_ADDR, size: 4, shndx: 1 }]);
    let p = Program::new(&image).unwrap();
    match find(&p, "greeting").unwrap().disassemble().unwrap() {
        Disassembly::Text(t) => assert_eq!(t, "hey!"),
        Disassembly::Code(_) => panic!("expected text"),
    }
}

#[test]
fn code_items_disassemble_as_mips() {
    // jr $ra; nop with a trailing byte of 0x80: not UTF-8
    let code = [0x03, 0xe0, 0x00, 0x08, 0x00, 0x00, 0x00, 0x80];
    let image = build_elf(&code, &[foo(8)]);
    let p = Program::new(&image).unwrap();
    match find(&p, "foo").unwrap().disassemble() {
        Ok(Disassembly::Code(v)) => {
            assert_eq!(v.len(), 2);
            assert_eq!(v[0].address, TEXT_ADDR as u64);
            assert_eq!(v[0].mnemonic.as_deref(), Some("jr"));
            assert_eq!(v[1].address, TEXT_ADDR as u64 + 4);
        }
        other => panic!("unexpected {:?}", other),
    }
}

#[test]
fn hex_dump_has_sixteen_bytes_a_line() {
    let text: Vec<u8> = (0..18).collect();
    let image = build_elf(&text, &[foo(18)]);
    let p = Program::new(&image).unwrap();
    let dump = String::from_utf8(find(&p, "foo").unwrap().hex_dump()).unwrap();
    assert_eq!(
        dump,
        "\n00000034  00 01 02 03 04 05 06 07 08 09 0a 0b 0c 0d 0e 0f \n00000044  10 11 \n"
    );
}

#[test]
fn items_compare_by_section_addresses_and_bytes() {
    let a = Program::new(&build_elf(&[1, 2, 3, 4], &[foo(4)])).unwrap();
    let b = Program::new(&build_elf(&[1, 2, 3, 4], &[foo(4)])).unwrap();
    let c = Program::new(&build_elf(&[1, 2, 3, 5], &[foo(4)])).unwrap();
    let x = find(&a, "foo").unwrap();
    assert!(x == find(&b, "foo").unwrap());
    assert!(x != find(&c, "foo").unwrap());
    assert!(x.same_as(&x.copy()));
    let mut renamed = x.copy();
    renamed.name = "other".to_string();
    assert!(*x == renamed);
}
