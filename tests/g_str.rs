use g_str::{ohash, GListNodo, GStr, CHAR_COUSIN};

fn hash_of(s: &str) -> (u32, usize) {
    let mut len: usize = 0;
    let h = ohash(s, &mut len);
    (h, len)
}

#[test]
fn it_works() {
    let mut reg = GListNodo::new();
    let mut other = Vec::new();
    for i in 50..150 {
        other.push(GStr::new(&mut reg, format!("hola{i}")));
    }
    for _u in 0..100 {
        for i in 50..150usize {
            let vtemp = GStr::new(&mut reg, format!("hola{i}"));
            println!("{}={i}", vtemp.as_str(&reg));
            let dup = other.get(i - 50).unwrap().duplicate(&mut reg);
            assert_eq!(dup == vtemp, true);
            dup.destroy(&mut reg);
            vtemp.destroy(&mut reg);
        }
    }
    let mut temp = Vec::new();
    for i in 0..100 {
        temp.push(GStr::new(&mut reg, format!("hola{i}")));
    }
    for _u in 0..100 {
        for i in 0..100usize {
            let vtemp = GStr::new(&mut reg, format!("hola{i}"));
            println!("{}={i}", vtemp.as_str(&reg));
            let dup = temp.get(i).unwrap().duplicate(&mut reg);
            assert_eq!(dup == vtemp, true);
            dup.destroy(&mut reg);
            vtemp.destroy(&mut reg);
        }
    }
    for h in other.drain(..) {
        h.destroy(&mut reg);
    }
    for h in temp.drain(..) {
        h.destroy(&mut reg);
    }
    assert_eq!(reg.count_of("hola0"), 0);
    assert_eq!(reg.count_of("hola149"), 0);
}

#[test]
fn same_text_gives_identical_handles() {
    let mut reg = GListNodo::new();
    let a = GStr::new(&mut reg, "hola");
    let owned = String::from("hola");
    let b = GStr::new(&mut reg, &owned);
    let c = GStr::new(&mut reg, owned);
    assert!(a == b);
    assert!(b == c);
    assert_eq!(reg.count_of("hola"), 3);
    assert_eq!(a.live_count(&reg), 3);
    a.destroy(&mut reg);
    b.destroy(&mut reg);
    c.destroy(&mut reg);
    assert_eq!(reg.count_of("hola"), 0);
}

#[test]
fn different_texts_give_distinct_handles() {
    let mut reg = GListNodo::new();
    let a = GStr::new(&mut reg, "hola");
    let b = GStr::new(&mut reg, "adios");
    let c = GStr::new(&mut reg, "hol");
    assert!(a != b);
    assert!(a != c);
    assert_eq!(a.as_str(&reg), "hola");
    assert_eq!(b.as_str(&reg), "adios");
    assert_eq!(c.as_str(&reg), "hol");
    assert_eq!(a.live_count(&reg), 1);
}

#[test]
fn colliding_fingerprints_stay_distinct() {
    assert_eq!(hash_of("lwxaswno"), hash_of("mfjxxggp"));
    let mut reg = GListNodo::new();
    let a = GStr::new(&mut reg, "lwxaswno");
    let b = GStr::new(&mut reg, "mfjxxggp");
    assert!(a != b);
    assert_eq!(a.as_str(&reg), "lwxaswno");
    assert_eq!(b.as_str(&reg), "mfjxxggp");
    let c = GStr::new(&mut reg, "mfjxxggp");
    assert!(b == c);
    assert_eq!(reg.count_of("lwxaswno"), 1);
    assert_eq!(reg.count_of("mfjxxggp"), 2);
}

#[test]
fn duplicates_need_as_many_releases() {
    let mut reg = GListNodo::new();
    let keep = GStr::new(&mut reg, "otro");
    let h = GStr::new(&mut reg, "hola");
    let k = 4;
    let mut dups = Vec::new();
    for _ in 0..k {
        dups.push(h.duplicate(&mut reg));
    }
    assert_eq!(h.live_count(&reg), k + 1);
    for (n, d) in dups.drain(..).enumerate() {
        d.destroy(&mut reg);
        assert_eq!(reg.count_of("hola"), k - n);
        assert_eq!(h.as_str(&reg), "hola");
    }
    assert_eq!(h.live_count(&reg), 1);
    h.destroy(&mut reg);
    assert_eq!(reg.count_of("hola"), 0);
    assert_eq!(keep.as_str(&reg), "otro");
    assert_eq!(reg.count_of("otro"), 1);
}

#[test]
fn reinterning_after_release_makes_a_new_entry() {
    let mut reg = GListNodo::new();
    let a = GStr::new(&mut reg, "uno");
    let first = GStr::new(&mut reg, "temporal");
    assert_eq!(reg.count_of("temporal"), 1);
    first.destroy(&mut reg);
    assert_eq!(reg.count_of("temporal"), 0);
    let second = GStr::new(&mut reg, "temporal");
    assert_eq!(second.live_count(&reg), 1);
    assert_eq!(second.as_str(&reg), "temporal");
    let b = GStr::new(&mut reg, "dos");
    assert!(a != b);
    assert!(second != a && second != b);
    assert_eq!(a.as_str(&reg), "uno");
    assert_eq!(b.as_str(&reg), "dos");
}

#[test]
fn removing_from_the_middle_and_ends_keeps_the_list() {
    let mut reg = GListNodo::new();
    let names = ["a", "b", "c", "d", "e"];
    let mut hs: Vec<GStr> = names.iter().map(|n| GStr::new(&mut reg, *n)).collect();
    let mid = hs.remove(2);
    mid.destroy(&mut reg);
    let first = hs.remove(0);
    first.destroy(&mut reg);
    let last = hs.pop().unwrap();
    last.destroy(&mut reg);
    assert_eq!(reg.count_of("a"), 0);
    assert_eq!(reg.count_of("c"), 0);
    assert_eq!(reg.count_of("e"), 0);
    assert_eq!(reg.count_of("b"), 1);
    assert_eq!(reg.count_of("d"), 1);
    let again = GStr::new(&mut reg, "c");
    let d = GStr::new(&mut reg, "d");
    assert!(d == hs[1]);
    assert_eq!(again.as_str(&reg), "c");
    assert_eq!(hs[0].as_str(&reg), "b");
}

#[test]
fn char_count_counts_scalar_values() {
    let mut reg = GListNodo::new();
    let a = GStr::new(&mut reg, "ñandú");
    assert_eq!(a.chars_count(&reg), 5);
    assert_eq!("ñandú".len(), 7);
    let b = GStr::new(&mut reg, "日本語");
    assert_eq!(b.chars_count(&reg), 3);
    let c = GStr::new(&mut reg, "");
    assert_eq!(c.chars_count(&reg), 0);
    assert_eq!(c.as_str(&reg), "");
}

#[test]
fn hash_values() {
    assert_eq!(hash_of(""), (0, 0));
    assert_eq!(hash_of("a"), (97, 1));
    assert_eq!(hash_of("ab"), (6210, 2));
    assert_eq!(hash_of("hola"), (76959004, 4));
    assert_eq!(hash_of("hola99"), (94075241, 6));
    assert_eq!(hash_of("ñandú"), (319221156, 5));
    assert_eq!(hash_of("日本語"), (155425200, 3));
    assert!(hash_of("hola0").0 < CHAR_COUSIN);
}

#[test]
fn hash_is_deterministic() {
    let owned = String::from("hola0");
    assert_eq!(hash_of("hola0"), hash_of(owned.as_str()));
    assert_eq!(hash_of("hola0"), (421584834, 5));
    assert_eq!(hash_of("hola0"), hash_of("hola0"));
}

#[test]
fn interleaved_sides_leave_the_registry_empty() {
    let mut reg = GListNodo::new();
    let mut left = Vec::new();
    let mut right = Vec::new();
    for round in 0..20 {
        for i in 0..100 {
            let h = GStr::new(&mut reg, format!("hola{i}"));
            if round % 2 == 0 {
                left.push(h.duplicate(&mut reg));
            } else {
                right.push(h.duplicate(&mut reg));
            }
            h.destroy(&mut reg);
        }
        if round % 3 == 2 {
            for h in left.drain(..) {
                h.destroy(&mut reg);
            }
        }
    }
    for h in left.drain(..).chain(right.drain(..)) {
        h.destroy(&mut reg);
    }
    for i in 0..100 {
        assert_eq!(reg.count_of(&format!("hola{i}")), 0);
    }
}
