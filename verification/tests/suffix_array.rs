use libsais::{
    ALPHABET_SIZE, SaSint, create_ctx, libsais, libsais_ctx, libsais_int, libsais_lcp,
    libsais_plcp, libsais_plcp_gsa,
};

fn brute_force_suffix_array_u8(t: &[u8]) -> Vec<SaSint> {
    let mut sa: Vec<SaSint> = (0..t.len())
        .map(|index| SaSint::try_from(index).expect("index must fit SaSint"))
        .collect();
    sa.sort_by(|&lhs, &rhs| {
        t[usize::try_from(lhs).expect("non-negative")..]
            .cmp(&t[usize::try_from(rhs).expect("non-negative")..])
    });
    sa
}

fn brute_force_plcp_u8(t: &[u8], sa: &[SaSint]) -> Vec<SaSint> {
    let mut rank = vec![0usize; t.len()];
    for (i, &suffix) in sa.iter().enumerate() {
        rank[usize::try_from(suffix).expect("suffix index must be non-negative")] = i;
    }

    let mut plcp = vec![0; t.len()];
    for i in 0..t.len() {
        let r = rank[i];
        let prev = if r == 0 {
            t.len()
        } else {
            usize::try_from(sa[r - 1]).expect("suffix index must be non-negative")
        };
        if prev == t.len() {
            plcp[i] = 0;
            continue;
        }

        let mut l = 0usize;
        while i + l < t.len() && prev + l < t.len() && t[i + l] == t[prev + l] {
            l += 1;
        }
        plcp[i] = l as SaSint;
    }
    plcp
}

fn brute_force_lcp_from_sa_u8(t: &[u8], sa: &[SaSint]) -> Vec<SaSint> {
    let mut lcp = vec![0; sa.len()];
    for i in 0..sa.len() {
        let lhs = usize::try_from(sa[i]).expect("suffix index must be non-negative");
        let rhs = if i == 0 {
            sa.len()
        } else {
            usize::try_from(sa[i - 1]).expect("suffix index must be non-negative")
        };
        if rhs == sa.len() {
            lcp[i] = 0;
            continue;
        }

        let mut l = 0usize;
        while lhs + l < t.len() && rhs + l < t.len() && t[lhs + l] == t[rhs + l] {
            l += 1;
        }
        lcp[i] = l as SaSint;
    }
    lcp
}

#[test]
fn libsais_matches_bruteforce_suffix_array_for_small_text() {
    let t = b"banana";
    let mut sa = vec![0; t.len()];
    let mut freq = vec![0; ALPHABET_SIZE];

    let result = libsais(t, &mut sa, 0, Some(&mut freq));

    assert_eq!(result, 0);
    assert_eq!(sa, brute_force_suffix_array_u8(t));
    assert_eq!(freq[b'a' as usize], 3);
    assert_eq!(freq[b'b' as usize], 1);
    assert_eq!(freq[b'n' as usize], 2);
}

#[test]
fn libsais_ctx_matches_plain_entry_point_for_small_text() {
    let t = b"mississippi";
    let mut sa_plain = vec![0; t.len()];
    let mut sa_ctx = vec![0; t.len()];
    let plain = libsais(t, &mut sa_plain, 0, None);

    let mut ctx = create_ctx().expect("context");
    let with_ctx = libsais_ctx(&mut ctx, t, &mut sa_ctx, 0, None);

    assert_eq!(plain, 0);
    assert_eq!(with_ctx, 0);
    assert_eq!(sa_ctx, sa_plain);
}

#[test]
fn libsais_int_matches_bruteforce_suffix_array_for_small_integer_text() {
    let mut t = vec![2, 1, 3, 1, 0];
    let expected = {
        let mut sa: Vec<SaSint> = (0..t.len())
            .map(|index| SaSint::try_from(index).expect("index must fit SaSint"))
            .collect();
        sa.sort_by(|&lhs, &rhs| {
            t[usize::try_from(lhs).expect("non-negative")..]
                .cmp(&t[usize::try_from(rhs).expect("non-negative")..])
        });
        sa
    };
    let mut sa = vec![0; t.len()];

    let result = libsais_int(&mut t, &mut sa, 4, 0);

    assert_eq!(result, 0);
    assert_eq!(sa, expected);
}

#[test]
fn libsais_plcp_matches_bruteforce_for_small_text() {
    let t = b"banana";
    let sa = brute_force_suffix_array_u8(t);
    let expected = brute_force_plcp_u8(t, &sa);
    let mut plcp = vec![0; t.len()];

    let result = libsais_plcp(t, &sa, &mut plcp);

    assert_eq!(result, 0);
    assert_eq!(plcp, expected);
}

#[test]
fn libsais_plcp_gsa_stops_at_separator() {
    let t = b"ab\0b\0";
    let sa = brute_force_suffix_array_u8(t);
    let mut plcp = vec![0; t.len()];

    let result = libsais_plcp_gsa(t, &sa, &mut plcp);

    assert_eq!(result, 0);
    assert_eq!(plcp[2], 0);
    assert_eq!(plcp[4], 0);
}

#[test]
fn libsais_lcp_matches_bruteforce_for_small_text() {
    let t = b"banana";
    let sa = brute_force_suffix_array_u8(t);
    let plcp = brute_force_plcp_u8(t, &sa);
    let expected = brute_force_lcp_from_sa_u8(t, &sa);
    let mut lcp = vec![0; t.len()];

    let result = libsais_lcp(&plcp, &sa, &mut lcp);

    assert_eq!(result, 0);
    assert_eq!(lcp, expected);
}
