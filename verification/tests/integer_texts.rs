use libsais::{SaSint, alloc_thread_state, libsais_main_32s_entry};

fn make_recursive_main_32s_text(repeats: usize) -> Vec<SaSint> {
    let motif = [9, 4, 9, 2, 9, 4, 9, 1];
    let mut t = Vec::with_capacity(repeats * motif.len() + 1);
    for _ in 0..repeats {
        t.extend_from_slice(&motif);
    }
    t.push(0);
    t
}

fn make_large_main_32s_stress_text(len: usize, alphabet: SaSint) -> Vec<SaSint> {
    let mut state: u32 = 0x1357_9bdf;
    let mut t = Vec::with_capacity(len + 1);

    for i in 0..len {
        state = state.wrapping_mul(1_664_525).wrapping_add(1_013_904_223);
        let mut value = ((state >> 16) % (alphabet as u32 - 1)) as SaSint + 1;

        if i % 17 < 8 {
            value = ((i / 17) as SaSint % 11) + 1;
        }
        if i % 29 < 10 {
            value = (((i / 29) as SaSint * 3) % 19) + 1;
        }
        if i % 64 >= 48 {
            value = t[i - 48];
        }

        t.push(value);
    }

    t.push(0);
    t
}

fn brute_force_suffix_array_i32(t: &[SaSint]) -> Vec<SaSint> {
    let mut sa: Vec<SaSint> = (0..t.len() as SaSint).collect();
    sa.sort_by(|&lhs, &rhs| t[lhs as usize..].cmp(&t[rhs as usize..]));
    sa
}

fn assert_main_32s_entry_sorts(t: Vec<SaSint>, k: SaSint, fs: SaSint) {
    let mut t = t;
    let n = t.len() as SaSint;
    let threads = 1;
    let extra = usize::try_from(fs).expect("fs must be non-negative");
    let mut sa = vec![0; t.len() + extra];
    let initial_t = t.clone();

    let mut thread_state = alloc_thread_state(threads).expect("thread state");
    let result = libsais_main_32s_entry(&mut t, &mut sa, n, k, fs, threads, &mut thread_state);

    assert_eq!(result, 0);
    assert_eq!(t, initial_t);
    assert_eq!(&sa[..t.len()], brute_force_suffix_array_i32(&t).as_slice());
}

fn assert_main_32s_entry_sorts_for_branch(k: SaSint) {
    assert_main_32s_entry_sorts(vec![17, 3, 17, 9, 5, 9, 2, 11, 2, 7, 1, 7, 0], k, 0);
}

#[test]
fn libsais_main_32s_entry_matches_upstream_c_on_6k_branch() {
    assert_main_32s_entry_sorts_for_branch(300);
}

#[test]
fn libsais_main_32s_entry_matches_upstream_c_on_4k_branch() {
    assert_main_32s_entry_sorts_for_branch(400);
}

#[test]
fn libsais_main_32s_entry_matches_upstream_c_on_2k_branch() {
    assert_main_32s_entry_sorts_for_branch(700);
}

#[test]
fn libsais_main_32s_entry_matches_upstream_c_on_1k_branch() {
    assert_main_32s_entry_sorts_for_branch(1501);
}

#[test]
fn libsais_main_32s_entry_matches_upstream_c_on_recursive_repetitive_6k_case() {
    assert_main_32s_entry_sorts(make_recursive_main_32s_text(24), 300, 0);
}

#[test]
fn libsais_main_32s_entry_matches_upstream_c_on_recursive_repetitive_1k_case() {
    assert_main_32s_entry_sorts(make_recursive_main_32s_text(24), 1501, 0);
}

#[test]
fn libsais_main_32s_entry_matches_upstream_c_on_large_generated_6k_case() {
    assert_main_32s_entry_sorts(make_large_main_32s_stress_text(1024, 300), 300, 0);
}

#[test]
fn libsais_main_32s_entry_matches_upstream_c_on_large_generated_6k_case_with_fs() {
    assert_main_32s_entry_sorts(make_large_main_32s_stress_text(1024, 300), 300, 2048);
}

#[test]
fn libsais_main_32s_entry_matches_upstream_c_on_large_generated_4k_case() {
    assert_main_32s_entry_sorts(make_large_main_32s_stress_text(1024, 400), 400, 0);
}

#[test]
fn libsais_main_32s_entry_matches_upstream_c_on_large_generated_4k_case_with_fs() {
    assert_main_32s_entry_sorts(make_large_main_32s_stress_text(1024, 400), 400, 2048);
}

#[test]
fn libsais_main_32s_entry_matches_upstream_c_on_large_generated_2k_case() {
    assert_main_32s_entry_sorts(make_large_main_32s_stress_text(1024, 700), 700, 0);
}

#[test]
fn libsais_main_32s_entry_matches_upstream_c_on_large_generated_2k_case_with_fs() {
    assert_main_32s_entry_sorts(make_large_main_32s_stress_text(1024, 700), 700, 2048);
}

#[test]
fn libsais_main_32s_entry_matches_upstream_c_on_large_generated_1k_case_with_fs() {
    assert_main_32s_entry_sorts(make_large_main_32s_stress_text(1024, 1501), 1501, 2048);
}
