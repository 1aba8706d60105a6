use implicit_mesh::key::{in_upper_half, Key, MortonKey, MAX_LEVEL};

#[test]
fn level() {
    let mut k = MortonKey::root_key();
    assert_eq!(k.level(), 0);
    for i in 0..16 {
        k = k.child_key(4);
        assert_eq!(k.level(), i + 1);
    }

    let mut k = MortonKey::root_key();
    assert_eq!(k.level(), 0);
    for i in 0..16 {
        k = k.child_key(i % 8);
        assert_eq!(k.level(), (i + 1) as usize);
    }
}

#[test]
fn get_x() {
    let mut k = MortonKey::root_key();
    for _i in 0..5 {
        k = k.child_key(4);
    }
    let x = k.get_component(0);
    assert_eq!(x, (2u32.pow(5) - 1) as u16);

    k = MortonKey::root_key();
    for _i in 0..16 {
        k = k.child_key(4);
    }
    let x = k.get_component(0);
    assert_eq!(x, (2u32.pow(16) - 1) as u16);
}

#[test]
fn get_y() {
    let mut k = MortonKey::root_key();
    for _i in 0..5 {
        k = k.child_key(2);
    }
    let y = k.get_component(1);
    assert_eq!(y, (2u32.pow(5) - 1) as u16);

    k = MortonKey::root_key();
    for _i in 0..16 {
        k = k.child_key(2);
    }
    let y = k.get_component(1);
    assert_eq!(y, (2u32.pow(16) - 1) as u16);
}

#[test]
fn get_z() {
    let mut k = MortonKey::root_key();
    for _i in 0..5 {
        k = k.child_key(1);
    }
    let z = k.get_component(2);
    assert_eq!(z, (2u32.pow(5) - 1) as u16);

    k = MortonKey::root_key();
    for _i in 0..16 {
        k = k.child_key(1);
    }
    let z = k.get_component(2);
    assert_eq!(z, (2u32.pow(16) - 1) as u16);
}

#[test]
fn get_all() {
    let mut k = MortonKey::root_key();
    for _i in 0..7 {
        k = k.child_key(7);
    }
    let x = k.get_component(0);
    let y = k.get_component(1);
    let z = k.get_component(2);
    assert_eq!(x, (2u32.pow(7) - 1) as u16);
    assert_eq!(y, (2u32.pow(7) - 1) as u16);
    assert_eq!(z, (2u32.pow(7) - 1) as u16);

    k = MortonKey::root_key();
    for _i in 0..16 {
        k = k.child_key(7);
    }
    let x = k.get_component(0);
    let y = k.get_component(1);
    let z = k.get_component(2);
    assert_eq!(x, (2u32.pow(16) - 1) as u16);
    assert_eq!(y, (2u32.pow(16) - 1) as u16);
    assert_eq!(z, (2u32.pow(16) - 1) as u16);
}

#[test]
fn get_mix() {
    let mut k = MortonKey::root_key();
    for i in 0..16 {
        k = k.child_key(i % 8)
    }
    let x = k.get_component(0);
    let y = k.get_component(1);
    let z = k.get_component(2);
    assert_eq!(x, 0b0000111100001111);
    assert_eq!(y, 0b0011001100110011);
    assert_eq!(z, 0b0101010101010101);

    let mut k = MortonKey::root_key();
    for i in 0..16 {
        k = k.child_key((i % 4) + 3)
    }
    let x = k.get_component(0);
    let y = k.get_component(1);
    let z = k.get_component(2);
    assert_eq!(x, 0b0111011101110111);
    assert_eq!(y, 0b1001100110011001);
    assert_eq!(z, 0b1010101010101010);
}

#[test]
fn root_is_the_bare_sentinel() {
    let root = MortonKey::root_key();
    assert_eq!(root, MortonKey(1));
    assert_eq!(root.level(), 0);
    assert!(root.is_well_formed());
    assert_eq!(root.get_component(0), 0);
    assert_eq!(root.get_component(1), 0);
    assert_eq!(root.get_component(2), 0);
}

#[test]
fn child_appends_one_octal_digit() {
    let root = MortonKey::root_key();
    assert_eq!(root.child_key(0), MortonKey(0o10));
    assert_eq!(root.child_key(5), MortonKey(0o15));
    assert_eq!(root.child_key(5).child_key(3), MortonKey(0o153));
    assert_eq!(MortonKey(0o1742).child_key(6), MortonKey(0o17426));
}

#[test]
fn child_doubles_the_coordinates_and_adds_its_bits() {
    let parent = MortonKey(0o1376);
    for child in 0..8u64 {
        let k = parent.child_key(child);
        assert_eq!(k.level(), parent.level() + 1);
        for axis in 0..3usize {
            let bit = ((child >> (2 - axis)) & 1) as u16;
            assert_eq!(k.get_component(axis), 2 * parent.get_component(axis) + bit);
        }
    }
}

#[test]
fn level_counts_octal_digits_of_any_pattern() {
    assert_eq!(MortonKey(0).level(), 0);
    assert_eq!(MortonKey(7).level(), 0);
    assert_eq!(MortonKey(8).level(), 1);
    assert_eq!(MortonKey(63).level(), 1);
    assert_eq!(MortonKey(64).level(), 2);
    assert_eq!(MortonKey(1 << 48).level(), 16);
    assert_eq!(MortonKey((1 << 49) - 1).level(), 16);
    assert_eq!(MortonKey(u64::MAX).level(), 21);
}

#[test]
fn well_formed_keys_have_the_sentinel_and_at_most_sixteen_digits() {
    assert!(!MortonKey(0).is_well_formed());
    assert!(MortonKey(1).is_well_formed());
    assert!(!MortonKey(2).is_well_formed());
    assert!(!MortonKey(7).is_well_formed());
    assert!(MortonKey(8).is_well_formed());
    assert!(MortonKey(15).is_well_formed());
    assert!(!MortonKey(16).is_well_formed());
    assert!(MortonKey(1 << 48).is_well_formed());
    assert!(MortonKey((1 << 49) - 1).is_well_formed());
    assert!(!MortonKey(1 << 49).is_well_formed());
    assert!(!MortonKey(1 << 51).is_well_formed());
    assert!(!MortonKey(u64::MAX).is_well_formed());
}

#[test]
fn component_reads_one_bit_of_each_digit() {
    // digits 5, 3, 6: x bits 1 0 1, y bits 0 1 1, z bits 1 1 0
    let k = MortonKey(0o1536);
    assert_eq!(k.get_component(0), 0b101);
    assert_eq!(k.get_component(1), 0b011);
    assert_eq!(k.get_component(2), 0b110);
}

#[test]
fn component_ignores_the_sentinel() {
    for level in 0..=16u64 {
        let k = MortonKey(1 << (3 * level));
        assert_eq!(k.get_component(0), 0);
        assert_eq!(k.get_component(1), 0);
        assert_eq!(k.get_component(2), 0);
    }
}

#[test]
fn component_below_level_sixteen_is_cut_to_sixteen_bits() {
    // 17 digits, all 7: each coordinate would be 2^17 - 1
    let mut k = MortonKey::root_key();
    for _ in 0..17 {
        k = k.child_key(7);
    }
    assert_eq!(k.level(), 17);
    assert_eq!(k.get_component(0), 0xffff);
    assert_eq!(k.get_component(1), 0xffff);
    assert_eq!(k.get_component(2), 0xffff);
}

#[test]
fn dilate_puts_two_free_bits_after_each_bit() {
    assert_eq!(MortonKey::dilate_component(0), 0);
    assert_eq!(MortonKey::dilate_component(1), 1);
    assert_eq!(MortonKey::dilate_component(0b10), 0b1000);
    assert_eq!(MortonKey::dilate_component(0b101), 0b1000001);
    assert_eq!(MortonKey::dilate_component(0b1111), 0b1001001001);
    assert_eq!(MortonKey::dilate_component(0x8000), 1 << 45);
    assert_eq!(MortonKey::dilate_component(0xffff), 0x2492_4924_9249);
}

#[test]
fn from_components_interleaves_below_the_sentinel() {
    assert_eq!(MortonKey::from_components(0, 0, 0, 0), MortonKey(1));
    assert_eq!(MortonKey::from_components(0, 0, 0, 3), MortonKey(0o1000));
    assert_eq!(MortonKey::from_components(1, 0, 0, 1), MortonKey(0o14));
    assert_eq!(MortonKey::from_components(0, 1, 0, 1), MortonKey(0o12));
    assert_eq!(MortonKey::from_components(0, 0, 1, 1), MortonKey(0o11));
    assert_eq!(MortonKey::from_components(0b101, 0b011, 0b110, 3), MortonKey(0o1536));
    assert_eq!(
        MortonKey::from_components(0xffff, 0xffff, 0xffff, 16),
        MortonKey((1 << 49) - 1)
    );
}

#[test]
fn from_components_inverts_get_component() {
    let mut k = MortonKey::root_key();
    for i in 0..16u64 {
        k = k.child_key((i * 5 + 3) % 8);
        let level = k.level();
        let x = k.get_component(0);
        let y = k.get_component(1);
        let z = k.get_component(2);
        assert_eq!(MortonKey::from_components(x, y, z, level), k);
    }
    for level in 0..=4usize {
        let side = 1u16 << level;
        for x in 0..side {
            for y in 0..side {
                for z in 0..side {
                    let k = MortonKey::from_components(x, y, z, level);
                    assert!(k.is_well_formed());
                    assert_eq!(k.level(), level);
                    assert_eq!(k.get_component(0), x);
                    assert_eq!(k.get_component(1), y);
                    assert_eq!(k.get_component(2), z);
                }
            }
        }
    }
}

#[test]
fn octant_halves_follow_the_digit_bits() {
    let expected = [
        (false, false, false),
        (false, false, true),
        (false, true, false),
        (false, true, true),
        (true, false, false),
        (true, false, true),
        (true, true, false),
        (true, true, true),
    ];
    for child in 0..8u64 {
        let e = expected[child as usize];
        assert_eq!(in_upper_half(child, 0), e.0);
        assert_eq!(in_upper_half(child, 1), e.1);
        assert_eq!(in_upper_half(child, 2), e.2);
    }
}

#[test]
fn root_has_no_neighbors() {
    let root = MortonKey::root_key();
    assert!(root.neighbors().is_empty());
    assert_eq!(root.neighbor(true, false, false), None);
    assert_eq!(root.neighbor_at(-1, 0, 0), None);
}

#[test]
fn corner_cells_have_seven_neighbors() {
    for child in 0..8u64 {
        let k = MortonKey::root_key().child_key(child);
        let around = k.neighbors();
        assert_eq!(around.len(), 7);
        for other in 0..8u64 {
            let m = MortonKey::root_key().child_key(other);
            assert_eq!(around.contains(&m), other != child);
        }
    }
}

#[test]
fn inner_cells_have_twenty_six_neighbors() {
    let k = MortonKey::from_components(1, 2, 1, 2);
    let around = k.neighbors();
    assert_eq!(around.len(), 26);
    let k = MortonKey::from_components(100, 7, 65534, 16);
    assert_eq!(k.neighbors().len(), 26);
}

#[test]
fn face_and_edge_cells_have_seventeen_and_eleven_neighbors() {
    assert_eq!(MortonKey::from_components(0, 1, 1, 2).neighbors().len(), 17);
    assert_eq!(MortonKey::from_components(3, 2, 1, 2).neighbors().len(), 17);
    assert_eq!(MortonKey::from_components(0, 0, 1, 2).neighbors().len(), 11);
    assert_eq!(MortonKey::from_components(0, 3, 0, 2).neighbors().len(), 7);
    assert_eq!(MortonKey::from_components(65535, 65535, 65535, 16).neighbors().len(), 7);
}

#[test]
fn neighbors_come_in_the_order_of_the_offsets() {
    let k = MortonKey::from_components(1, 1, 1, 2);
    let around = k.neighbors();
    let mut expected = Vec::new();
    for dx in 0..3u16 {
        for dy in 0..3u16 {
            for dz in 0..3u16 {
                if (dx, dy, dz) != (1, 1, 1) {
                    expected.push(MortonKey::from_components(dx, dy, dz, 2));
                }
            }
        }
    }
    assert_eq!(around, expected);
}

#[test]
fn neighbor_at_moves_the_coordinates() {
    let k = MortonKey::from_components(5, 9, 2, 4);
    assert_eq!(k.neighbor_at(1, 0, 0), Some(MortonKey::from_components(6, 9, 2, 4)));
    assert_eq!(k.neighbor_at(-1, 1, -1), Some(MortonKey::from_components(4, 10, 1, 4)));
    assert_eq!(k.neighbor_at(0, 0, 0), None);
    let edge = MortonKey::from_components(15, 0, 7, 4);
    assert_eq!(edge.neighbor_at(1, 0, 0), None);
    assert_eq!(edge.neighbor_at(0, -1, 0), None);
    assert_eq!(edge.neighbor_at(-1, 1, 1), Some(MortonKey::from_components(14, 1, 8, 4)));
}

#[test]
fn neighbor_steps_forward_along_the_chosen_axes() {
    let k = MortonKey::from_components(5, 9, 2, 4);
    assert_eq!(k.neighbor(false, false, false), None);
    assert_eq!(k.neighbor(true, false, false), Some(MortonKey::from_components(6, 9, 2, 4)));
    assert_eq!(k.neighbor(false, true, true), Some(MortonKey::from_components(5, 10, 3, 4)));
    assert_eq!(k.neighbor(true, true, true), Some(MortonKey::from_components(6, 10, 3, 4)));
    let last = MortonKey::from_components(15, 9, 2, 4);
    assert_eq!(last.neighbor(true, false, false), None);
    assert_eq!(last.neighbor(true, true, false), None);
    assert_eq!(last.neighbor(false, true, false), Some(MortonKey::from_components(15, 10, 2, 4)));
}

#[test]
fn neighbors_are_mutual_and_adjacent() {
    let level = 3usize;
    let side = 1u16 << level;
    for x in 0..side {
        for y in 0..side {
            for z in 0..side {
                let k = MortonKey::from_components(x, y, z, level);
                let around = k.neighbors();
                for (i, m) in around.iter().enumerate() {
                    assert!(m.is_well_formed());
                    assert_eq!(m.level(), level);
                    assert_ne!(*m, k);
                    for axis in 0..3usize {
                        let d = m.get_component(axis) as i32 - k.get_component(axis) as i32;
                        assert!((-1..=1).contains(&d));
                    }
                    assert!(m.neighbors().contains(&k));
                    assert!(!around[..i].contains(m));
                }
            }
        }
    }
}

#[test]
fn keys_order_like_their_bit_patterns() {
    assert!(MortonKey(8) < MortonKey(9));
    assert!(MortonKey(15) < MortonKey(64));
    assert_eq!(MortonKey(77), MortonKey(77));
    assert_eq!(MAX_LEVEL, 16);
}
