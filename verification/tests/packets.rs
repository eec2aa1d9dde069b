use chlorophyte::packet::{
    C2SClientUuid, C2SConnect, C2SNetMessageCommand, C2SPlayerAppearance,
    C2SRequestInitialTileData, C2SRequestWorldInfo, C2SSetBuffs, C2SSetHealth, C2SSetInvSlot,
    C2SSetMana, C2STerrariaPacket, Difficulty, ReadTerrariaPacket, S2CConnectionApproved,
    S2CFatalError, S2CPasswordRequired, S2CTerrariaPacket, WriteTerrariaPacket,
};
use chlorophyte::types::{Cursor, PacketError, TerrariaTypesR, TerrariaTypesW};

fn framed<P: C2STerrariaPacket>(packet: P) -> Vec<u8> {
    let mut out = vec![];
    out.write_terraria_packet(packet).unwrap();
    out
}

fn appearance() -> C2SPlayerAppearance {
    C2SPlayerAppearance {
        slot: 1,
        skin_variant: 2,
        hair: 3,
        name: "Bob".to_string(),
        hair_dye: 4,
        hide_visible_accessory: [false; 10],
        hide_misc: false,
        hair_color: (1, 2, 3),
        skin_color: (4, 5, 6),
        eye_color: (7, 8, 9),
        shirt_color: (10, 11, 12),
        undershirt_color: (13, 14, 15),
        pants_color: (16, 17, 18),
        shoe_color: (19, 20, 21),
        difficulty: Difficulty::Normal,
        extra_accessory: false,
        using_biome_torches: false,
        happy_fun_torch_time: false,
        unlocked_biome_torches: false,
        unlocked_super_cart: false,
        enabled_super_cart: false,
        used_aegis_crystal: false,
        used_aegis_fruit: false,
        used_arcane_crystal: false,
        used_galaxy_pearl: false,
        used_gummy_worm: false,
        used_ambrosia: false,
        ate_artisan_bread: false,
    }
}

#[test]
fn connect_is_the_text_terraria_and_the_version() {
    assert_eq!(C2SConnect::PACKET_ID, 1);
    assert_eq!(C2SConnect { version: 279 }.serialize(), b"\x0bTerraria279".to_vec());
    assert_eq!(framed(C2SConnect { version: 279 }), b"\x0f\x00\x01\x0bTerraria279".to_vec());
    assert_eq!(C2SConnect { version: 0 }.serialize(), b"\x09Terraria0".to_vec());
    assert_eq!(
        C2SConnect { version: u32::MAX }.serialize(),
        b"\x12Terraria4294967295".to_vec()
    );
}

#[test]
fn connect_survives_the_wire() {
    for version in [0, 1, 9, 10, 279, 1000, 4294967294, u32::MAX] {
        let bytes = framed(C2SConnect { version });
        let read = Cursor::new(&bytes).read_terraria_packet::<C2SConnect>();
        assert_eq!(read, Ok(C2SConnect { version }));
    }
}

#[test]
fn connect_is_not_read_from_other_texts() {
    let read = |body: &[u8]| C2SConnect::deserialize(body.to_vec()).map(|p| *p);
    assert_eq!(read(b"\x0bTerraria279"), Ok(C2SConnect { version: 279 }));
    assert_eq!(read(b"\x0bTerraria279\x00\x00"), Ok(C2SConnect { version: 279 }));
    assert_eq!(read(b"\x0cTerraria0279"), Err(PacketError::Malformed));
    assert_eq!(read(b"\x0cTerraria+279"), Err(PacketError::Malformed));
    assert_eq!(read(b"\x08Terraria"), Err(PacketError::Malformed));
    assert_eq!(read(b"\x0bterraria279"), Err(PacketError::Malformed));
    assert_eq!(read(b"\x12Terraria4294967296"), Err(PacketError::Malformed));
    assert_eq!(read(b"\x0bTerraria27"), Err(PacketError::UnexpectedEof));
    assert_eq!(read(b""), Err(PacketError::UnexpectedEof));
    assert_eq!(read(b"\x80\x80\x80\x80\x80\x00"), Err(PacketError::LengthOverflow));
}

#[test]
fn password_required_is_an_empty_payload() {
    assert_eq!(S2CPasswordRequired::PACKET_ID, 37);
    assert_eq!(S2CPasswordRequired.serialize(), Vec::<u8>::new());
    assert_eq!(S2CPasswordRequired::deserialize(vec![]).map(|p| *p), Ok(S2CPasswordRequired));
    assert_eq!(
        S2CPasswordRequired::deserialize(vec![1, 2, 3]).map(|p| *p),
        Ok(S2CPasswordRequired)
    );
    let bytes = framed(S2CPasswordRequired);
    assert_eq!(bytes, vec![3, 0, 37]);
    assert_eq!(
        Cursor::new(&bytes).read_terraria_packet::<S2CPasswordRequired>(),
        Ok(S2CPasswordRequired)
    );
}

#[test]
fn connection_approved_is_read_from_its_first_byte() {
    assert_eq!(
        S2CConnectionApproved::deserialize(vec![7, 8, 9]).map(|p| *p),
        Ok(S2CConnectionApproved { slot: 7 })
    );
    assert_eq!(
        S2CConnectionApproved::deserialize(vec![7]).map(|p| *p),
        Ok(S2CConnectionApproved { slot: 7 })
    );
    assert_eq!(
        S2CConnectionApproved::deserialize(vec![]).map(|p| *p),
        Err(PacketError::UnexpectedEof)
    );
    let frame = [0x0a, 0x00, 0x03, 0x05, 0, 0, 0, 0, 0, 0];
    assert_eq!(
        Cursor::new(&frame).read_terraria_packet::<S2CConnectionApproved>(),
        Ok(S2CConnectionApproved { slot: 5 })
    );
}

#[test]
fn fatal_error_is_read_with_a_length_byte_two_too_great() {
    let read = |body: &[u8]| S2CFatalError::deserialize(body.to_vec()).map(|p| p.error);
    assert_eq!(read(b"\x0dInvalid ver"), Ok("Invalid ver".to_string()));
    assert_eq!(read(b"\x0bInvalid ver"), Ok("Invalid v".to_string()));
    assert_eq!(read(b"\x02"), Ok(String::new()));
    assert_eq!(read(b"\x02rest"), Ok(String::new()));
    assert_eq!(read(b"\x05abcdef"), Ok("abc".to_string()));
    assert_eq!(read(b""), Err(PacketError::UnexpectedEof));
    assert_eq!(read(b"\x00abc"), Err(PacketError::BadLength));
    assert_eq!(read(b"\x01abc"), Err(PacketError::BadLength));
    assert_eq!(read(b"\x06abc"), Err(PacketError::UnexpectedEof));
}

#[test]
fn fatal_error_in_a_frame() {
    let frame = b"\x0f\x00\x02\x0bInvalid ver";
    assert_eq!(
        Cursor::new(frame).read_terraria_packet::<S2CFatalError>().map(|p| p.error),
        Ok("Invalid v".to_string())
    );
    let frame = b"\x0f\x00\x02\x0dInvalid ver";
    assert_eq!(
        Cursor::new(frame).read_terraria_packet::<S2CFatalError>().map(|p| p.error),
        Ok("Invalid ver".to_string())
    );
}

#[test]
fn fatal_error_replaces_what_is_not_utf8() {
    let read = |body: &[u8]| S2CFatalError::deserialize(body.to_vec()).map(|p| p.error);
    assert_eq!(read(b"\x05a\xffb"), Ok("a\u{fffd}b".to_string()));
    assert_eq!(read(b"\x04\xc3\xa4"), Ok("\u{e4}".to_string()));
}

#[test]
fn a_written_text_is_not_read_back_by_the_scan() {
    let mut written = vec![];
    written.write_terraria_string("Invalid ver".to_string());
    assert_eq!(written, b"\x0bInvalid ver".to_vec());
    let mut cursor = Cursor::new(&written);
    assert_eq!(cursor.read_terraria_string(), Ok("Invalid v".to_string()));
    assert_eq!(cursor.remaining(), 2);
    assert_eq!(Cursor::new(&written).read_prefixed(), Ok(&b"Invalid ver"[..]));
}

#[test]
fn frames_are_read_with_their_length() {
    let read = |bytes: &[u8]| Cursor::new(bytes).read_terraria_packet::<S2CPasswordRequired>();
    assert_eq!(read(&[]), Err(PacketError::UnexpectedEof));
    assert_eq!(read(&[3]), Err(PacketError::UnexpectedEof));
    assert_eq!(read(&[0, 0, 37]), Err(PacketError::TooShort));
    assert_eq!(read(&[1, 0, 37]), Err(PacketError::TooShort));
    assert_eq!(read(&[2, 0]), Ok(S2CPasswordRequired));
    assert_eq!(read(&[3, 0, 37]), Ok(S2CPasswordRequired));
    assert_eq!(read(&[4, 0, 37]), Err(PacketError::TooShort));
    assert_eq!(read(&[4, 0, 37, 1]), Ok(S2CPasswordRequired));
    assert_eq!(read(&[4, 0, 37, 1, 2, 3]), Ok(S2CPasswordRequired));
    assert_eq!(read(&[0x00, 0x01, 37]), Err(PacketError::TooShort));
}

#[test]
fn a_frame_is_read_whole_and_no_further() {
    let bytes = [4, 0, 3, 9, 0xaa, 0xbb];
    let mut cursor = Cursor::new(&bytes);
    assert_eq!(
        cursor.read_terraria_packet::<S2CConnectionApproved>(),
        Ok(S2CConnectionApproved { slot: 9 })
    );
    assert_eq!(cursor.remaining(), 0);
    let bytes = [4, 0, 3, 9, 0xaa, 0xbb, 0xcc];
    let mut cursor = Cursor::new(&bytes);
    assert!(cursor.read_terraria_packet::<S2CConnectionApproved>().is_ok());
    assert_eq!(cursor.remaining(), 1);
    assert_eq!(cursor.read_u8(), Ok(0xcc));
    let bytes = [9, 0, 3];
    let mut cursor = Cursor::new(&bytes);
    assert_eq!(
        cursor.read_terraria_packet::<S2CConnectionApproved>(),
        Err(PacketError::TooShort)
    );
    assert_eq!(cursor.remaining(), 3);
}

#[test]
fn cursor_reads_bytes_and_numbers() {
    let bytes = [0x34, 0x12, 0x56, 1, 2, 3, 9];
    let mut cursor = Cursor::new(&bytes);
    assert_eq!(cursor.peek_u16(), Some(0x1234));
    assert_eq!(cursor.read_u16(), Ok(0x1234));
    assert_eq!(cursor.read_u8(), Ok(0x56));
    assert_eq!(cursor.read_terraria_rgb(), Ok((1, 2, 3)));
    assert_eq!(cursor.read_u16(), Err(PacketError::UnexpectedEof));
    assert_eq!(cursor.peek_u16(), None);
    assert_eq!(cursor.read_terraria_rgb(), Err(PacketError::UnexpectedEof));
    assert_eq!(cursor.remaining(), 1);
    assert_eq!(cursor.read_exact(2), Err(PacketError::UnexpectedEof));
    assert_eq!(cursor.read(5), &[9][..]);
    assert_eq!(cursor.read_u8(), Err(PacketError::UnexpectedEof));
    assert_eq!(cursor.read(5), &[][..]);
    let mut cursor = Cursor::new(&bytes);
    assert_eq!(cursor.read_exact(3), Ok(&[0x34, 0x12, 0x56][..]));
    assert_eq!(cursor.remaining(), 4);
}

#[test]
fn lengths_are_written_seven_bits_to_a_byte() {
    let prefix = |n: usize| {
        let mut out = vec![];
        chlorophyte::types::write_length(&mut out, n);
        out
    };
    assert_eq!(prefix(0), vec![0]);
    assert_eq!(prefix(127), vec![127]);
    assert_eq!(prefix(128), vec![0x80, 1]);
    assert_eq!(prefix(300), vec![0xac, 2]);
    assert_eq!(prefix(16383), vec![0xff, 0x7f]);
    assert_eq!(prefix(16384), vec![0x80, 0x80, 1]);
    for n in [0usize, 1, 127, 128, 300, 16383, 16384, 2097151, 2097152, 0x7fff_ffff] {
        let written = prefix(n);
        assert_eq!(Cursor::new(&written).read_length(), Ok(n as u64));
    }
    assert_eq!(Cursor::new(&[0x80]).read_length(), Err(PacketError::UnexpectedEof));
    assert_eq!(
        Cursor::new(&[0xff, 0xff, 0xff, 0xff, 0xff, 0]).read_length(),
        Err(PacketError::LengthOverflow)
    );
    assert_eq!(Cursor::new(&[0xff, 0xff, 0xff, 0xff, 0x7f]).read_length(), Ok(0x7_ffff_ffff));
}

#[test]
fn long_texts_are_read_back_as_they_were_written() {
    for len in [0usize, 1, 2, 127, 128, 200, 16383, 16384] {
        let text = "x".repeat(len);
        let mut written = vec![];
        written.write_terraria_string(text.clone());
        written.push(0xee);
        let mut cursor = Cursor::new(&written);
        assert_eq!(cursor.read_prefixed(), Ok(text.as_bytes()));
        assert_eq!(cursor.remaining(), 1);
    }
    let text = "\u{e4}\u{20ac}".to_string();
    let mut written = vec![];
    written.write_terraria_string(text);
    assert_eq!(written, vec![5, 0xc3, 0xa4, 0xe2, 0x82, 0xac]);
    assert_eq!(Cursor::new(&[3, 1, 2]).read_prefixed(), Err(PacketError::UnexpectedEof));
}

#[test]
fn colours_are_three_bytes() {
    let mut out = vec![9];
    out.write_terraria_rgb((1, 2, 3));
    assert_eq!(out, vec![9, 1, 2, 3]);
}

#[test]
fn a_body_that_fits_no_frame_is_not_written() {
    let mut out = vec![1, 2];
    let long = C2SClientUuid { uuid: "u".repeat(65531) };
    assert_eq!(out.write_terraria_packet(long), Err(PacketError::TooLong));
    assert_eq!(out, vec![1, 2]);
    let fits = C2SClientUuid { uuid: "u".repeat(65529) };
    assert_eq!(out.write_terraria_packet(fits), Ok(()));
    assert_eq!(out.len(), 2 + 65535);
    assert_eq!(&out[2..5], &[0xff, 0xff, 68]);
}

#[test]
fn player_appearance_with_nothing_set() {
    assert_eq!(C2SPlayerAppearance::PACKET_ID, 4);
    assert_eq!(
        appearance().serialize(),
        vec![
            1, 2, 3, 3, b'B', b'o', b'b', 4, 0, 0, 0, 1, 2, 3, 4, 5, 6, 7, 8, 9, 10, 11, 12, 13,
            14, 15, 16, 17, 18, 19, 20, 21, 0x80, 0, 0
        ]
    );
}

#[test]
fn player_appearance_with_everything_set() {
    let mut p = appearance();
    p.hide_visible_accessory = [true; 10];
    p.hide_misc = true;
    p.difficulty = Difficulty::Hardcore;
    p.extra_accessory = true;
    p.using_biome_torches = true;
    p.happy_fun_torch_time = true;
    p.unlocked_biome_torches = true;
    p.unlocked_super_cart = true;
    p.enabled_super_cart = true;
    p.used_aegis_crystal = true;
    p.used_aegis_fruit = true;
    p.used_arcane_crystal = true;
    p.used_galaxy_pearl = true;
    p.used_gummy_worm = true;
    p.used_ambrosia = true;
    p.ate_artisan_bread = true;
    let body = p.serialize();
    assert_eq!(&body[8..11], &[0xff, 0x03, 1]);
    assert_eq!(&body[32..], &[0x30, 0xf8, 0xfe]);
}

#[test]
fn player_appearance_bit_by_bit() {
    let mut p = appearance();
    p.hide_visible_accessory[0] = true;
    p.hide_visible_accessory[9] = true;
    p.difficulty = Difficulty::Mediumcore;
    p.using_biome_torches = true;
    p.unlocked_biome_torches = true;
    p.used_ambrosia = true;
    let body = p.serialize();
    assert_eq!(&body[8..10], &[0x01, 0x02]);
    assert_eq!(&body[32..], &[0x40, 0xa0, 0x04]);
    let mut p = appearance();
    p.using_biome_torches = true;
    p.enabled_super_cart = true;
    p.ate_artisan_bread = true;
    assert_eq!(&p.serialize()[32..], &[0x80, 0x08, 0x02]);
}

#[test]
fn health_and_mana_are_signed_numbers_low_byte_first() {
    assert_eq!(C2SSetHealth::PACKET_ID, 16);
    assert_eq!(C2SSetMana::PACKET_ID, 42);
    assert_eq!(
        C2SSetHealth { slot: 1, stat_life: 0x1234, stat_life_max: -2 }.serialize(),
        vec![1, 0x34, 0x12, 0xfe, 0xff]
    );
    assert_eq!(
        C2SSetMana { slot: 2, stat_mana: i16::MIN, stat_mana_max: i16::MAX }.serialize(),
        vec![2, 0x00, 0x80, 0xff, 0x7f]
    );
}

#[test]
fn buffs_fill_forty_four_places() {
    assert_eq!(C2SSetBuffs::PACKET_ID, 50);
    let body = C2SSetBuffs { slot: 9, buffs: vec![0x1234, 0xffff] }.serialize();
    assert_eq!(body.len(), 88);
    assert_eq!(&body[..6], &[0x34, 0x12, 0xff, 0xff, 0, 0]);
    assert!(body[4..].iter().all(|b| *b == 0));
    assert_eq!(C2SSetBuffs { slot: 9, buffs: vec![] }.serialize(), vec![0; 88]);
    let full = C2SSetBuffs { slot: 9, buffs: vec![0x0102; 44] }.serialize();
    assert_eq!(full.len(), 88);
    assert!(full.chunks(2).all(|c| c == [0x02, 0x01]));
}

#[test]
fn inventory_slot_and_tile_request() {
    assert_eq!(C2SSetInvSlot::PACKET_ID, 5);
    assert_eq!(C2SRequestInitialTileData::PACKET_ID, 8);
    assert_eq!(
        C2SSetInvSlot { slot: 1, inv_slot: 2, stack: -1, prefix_id: 3, net_id: 0x0405 }
            .serialize(),
        vec![1, 2, 0xff, 0xff, 3, 0x05, 0x04]
    );
    assert_eq!(
        C2SRequestInitialTileData { x: -1, y: 0x01020304 }.serialize(),
        vec![0xff, 0xff, 0xff, 0xff, 0x04, 0x03, 0x02, 0x01]
    );
    assert_eq!(
        C2SRequestInitialTileData { x: i32::MIN, y: i32::MAX }.serialize(),
        vec![0, 0, 0, 0x80, 0xff, 0xff, 0xff, 0x7f]
    );
}

#[test]
fn world_info_uuid_and_command() {
    assert_eq!(C2SRequestWorldInfo::PACKET_ID, 6);
    assert_eq!(C2SClientUuid::PACKET_ID, 68);
    assert_eq!(C2SNetMessageCommand::PACKET_ID, 82);
    assert_eq!(C2SRequestWorldInfo.serialize(), Vec::<u8>::new());
    assert_eq!(framed(C2SRequestWorldInfo), vec![3, 0, 6]);
    assert_eq!(C2SClientUuid { uuid: "ab".to_string() }.serialize(), vec![2, b'a', b'b']);
    assert_eq!(
        C2SNetMessageCommand { command: "Say".to_string(), text: "hi".to_string() }.serialize(),
        vec![1, 0, 3, b'S', b'a', b'y', 2, b'h', b'i']
    );
}
