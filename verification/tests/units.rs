use sa_linear::{
    aligned_rows, build_sa_is, find_lms, find_types, get_frequencies, get_heads_tails, induce_l, induce_s, is_lms,
    is_lms_equal, longest_repeat, place_lms, summarize, Symbol, L, S,
};

const E: usize = usize::MAX;

fn banana() -> Vec<u8> {
    let mut b = b"banana".to_vec();
    b.push(0);
    b
}

fn naive_sa(s: &[u8]) -> Vec<usize> {
    let mut sa: Vec<usize> = (0..s.len()).collect();
    sa.sort_by(|&i, &j| s[i..].cmp(&s[j..]));
    sa
}

#[test]
fn types_of_banana() {
    assert_eq!(find_types(&banana()), vec![L, S, L, S, L, L, S]);
}

#[test]
fn types_of_empty_and_single() {
    assert_eq!(find_types::<u8>(&[]), Vec::<u8>::new());
    assert_eq!(find_types(&[5u8]), vec![S]);
    assert_eq!(find_types(&[2u8, 2, 2]), vec![S, S, S]);
    assert_eq!(find_types(&[3usize, 2, 1]), vec![L, L, S]);
}

#[test]
fn type_s_means_smaller_suffix() {
    let t = b"mississippi\0";
    let ty = find_types(t);
    for i in 0..t.len() - 1 {
        assert_eq!(ty[i] == S, t[i..] < t[i + 1..], "position {i}");
    }
}

#[test]
fn lms_checks() {
    let ty = vec![L, S, L, S, L, L, S];
    assert!(!is_lms(&ty, 0));
    assert!(is_lms(&ty, 1));
    assert!(!is_lms(&ty, 2));
    assert!(is_lms(&ty, 3));
    assert!(is_lms(&ty, 6));
    assert!(!is_lms(&ty, usize::MAX));
    assert_eq!(find_lms(&ty), vec![1, 3, 6]);
    assert_eq!(find_lms(&[]), Vec::<usize>::new());
    assert_eq!(find_lms(&[S, S, S]), Vec::<usize>::new());
}

#[test]
fn frequencies_table_size() {
    let freq = get_frequencies(b"abc");
    assert_eq!(freq.len(), 256);
    assert_eq!(freq[b'a' as usize], 1);
    assert_eq!(freq[b'd' as usize], 0);
    let freq = get_frequencies(&[1usize, 300, 300]);
    assert_eq!(freq.len(), 301);
    assert_eq!(freq[300], 2);
    assert_eq!(freq[1], 1);
    assert_eq!(freq.iter().sum::<usize>(), 3);
}

#[test]
fn heads_and_tails_exact() {
    let freq = get_frequencies(&banana());
    let (heads, tails) = get_heads_tails(&freq);
    assert_eq!((heads[0], tails[0]), (0, 0));
    assert_eq!((heads[b'a' as usize], tails[b'a' as usize]), (1, 3));
    assert_eq!((heads[b'b' as usize], tails[b'b' as usize]), (4, 4));
    assert_eq!((heads[b'n' as usize], tails[b'n' as usize]), (5, 6));
    assert_eq!((heads[b'c' as usize], tails[b'c' as usize]), (0, 0));
}

#[test]
fn induced_passes_on_banana() {
    let text = banana();
    let ty = find_types(&text);
    let lms = find_lms(&ty);
    let freq = get_frequencies(&text);
    let (heads, tails) = get_heads_tails(&freq);

    let mut t1 = tails.clone();
    let mut sa = place_lms(&lms, &mut t1, &text);
    assert_eq!(sa, vec![6, E, 1, 3, E, E, E]);
    assert_eq!(t1[b'a' as usize], 1);
    assert_eq!(t1[0], 0);

    let mut h1 = heads.clone();
    induce_l(&text, &mut sa, &ty, &mut h1);
    assert_eq!(sa, vec![6, 5, 1, 3, 0, 4, 2]);
    assert_eq!(h1[b'a' as usize], 2);
    assert_eq!(h1[b'n' as usize], 7);

    let mut t2 = tails.clone();
    induce_s(&text, &mut sa, &ty, &mut t2);
    assert_eq!(sa, vec![6, 5, 3, 1, 0, 4, 2]);
    assert_eq!(sa, naive_sa(&text));
}

#[test]
fn lms_substrings_compared() {
    let mut text = b"mmiissiissiippii".to_vec();
    text.push(0);
    let ty = find_types(&text);
    assert_eq!(find_lms(&ty), vec![2, 6, 10, 16]);
    assert!(is_lms_equal(&text, &ty, 2, 6));
    assert!(is_lms_equal(&text, &ty, 6, 2));
    assert!(is_lms_equal(&text, &ty, 10, 10));
    assert!(!is_lms_equal(&text, &ty, 2, 10));
    assert!(!is_lms_equal(&text, &ty, 10, 16));
}

#[test]
fn summarize_names() {
    let text = banana();
    let ty = find_types(&text);
    let guessed = vec![6, 5, 3, 1, 0, 4, 2];
    let (summary, offsets, name_count) = summarize(&guessed, &text, &ty);
    assert_eq!(summary, vec![3, 2, 1]);
    assert_eq!(offsets, vec![1, 3, 6]);
    assert_eq!(name_count, 4);

    let mut text = b"mmiissiissiippii".to_vec();
    text.push(0);
    let ty = find_types(&text);
    let guessed = vec![16, 15, 14, 10, 2, 6, 11, 3, 7, 1, 0, 13, 12, 5, 9, 4, 8];
    let (summary, offsets, name_count) = summarize(&guessed, &text, &ty);
    assert_eq!(summary, vec![3, 3, 2, 1]);
    assert_eq!(offsets, vec![2, 6, 10, 16]);
    assert_eq!(name_count, 4);
}

#[test]
fn suffix_array_with_repeated_lms_substrings() {
    // The LMS substrings repeat here, so the reduced text is sorted recursively.
    let s = b"mmiissiissiippii";
    assert_eq!(build_sa_is(s), naive_sa(s));
    let s = b"abcabcabcabcabcabc";
    assert_eq!(build_sa_is(s), naive_sa(s));
}

#[test]
fn suffix_array_small_cases() {
    assert_eq!(build_sa_is(b"a"), vec![0]);
    assert_eq!(build_sa_is(b"ba"), vec![1, 0]);
    assert_eq!(build_sa_is(b"banana"), vec![5, 3, 1, 0, 4, 2]);
    assert_eq!(build_sa_is(&[3usize, 1000, 3, 1000, 2]), vec![4, 2, 0, 3, 1]);
}

#[test]
fn display_of_symbols() {
    assert_eq!(b'a'.display(), "a");
    assert_eq!(200u8.display(), ".");
    assert_eq!(0usize.display(), "0");
    assert_eq!(4071usize.display(), "4071");
    assert_eq!(<u8 as Symbol>::sentinel(), 0);
    assert_eq!(<usize as Symbol>::sentinel(), 0);
    assert_eq!(b'z'.as_index(), 122);
    assert_eq!(77usize.as_index(), 77);
}

#[test]
fn longest_repeat_examples() {
    assert_eq!(longest_repeat(b"banana\n", 6), 3);
    assert_eq!(longest_repeat(b"abcd\n", 4), 0);
    assert_eq!(longest_repeat(b"aaaa\n", 4), 3);
    assert_eq!(longest_repeat(b"a\n", 1), 0);
    assert_eq!(longest_repeat(b"mississippi\n", 11), 4);
    assert_eq!(longest_repeat(b"abcabxabcd\n", 10), 3);
}

#[test]
fn bucket_layout_law() {
    let freq = get_frequencies(b"abracadabra");
    let (heads, tails) = get_heads_tails(&freq);
    let used: Vec<usize> = (0..freq.len()).filter(|&c| freq[c] != 0).collect();
    for w in used.windows(2) {
        assert!(tails[w[0]] < heads[w[1]]);
    }
    for &c in &used {
        assert_eq!(tails[c] - heads[c] + 1, freq[c]);
    }
    assert_eq!(freq.iter().sum::<usize>(), 11);
}

#[test]
fn reduced_text_orders_lms_suffixes() {
    let mut text = b"mmiissiissiippii".to_vec();
    text.push(0);
    let ty = find_types(&text);
    let lms = find_lms(&ty);
    let guessed = vec![16, 15, 14, 10, 2, 6, 11, 3, 7, 1, 0, 13, 12, 5, 9, 4, 8];
    let (summary, offsets, _) = summarize(&guessed, &text, &ty);
    assert_eq!(offsets, lms);
    let reduced_sa = build_sa_is(&summary);
    let sorted_lms: Vec<usize> = reduced_sa.iter().map(|&i| offsets[i]).collect();
    for w in sorted_lms.windows(2) {
        assert!(text[w[0]..] < text[w[1]..]);
    }
    assert_eq!(sorted_lms, vec![16, 10, 6, 2]);
}

#[test]
fn passes_with_sorted_seeds_and_a_nonzero_last_symbol() {
    let text = b"mississippi$".to_vec();
    let ty = find_types(&text);
    assert_eq!(find_lms(&ty), vec![1, 4, 7, 11]);
    let freq = get_frequencies(&text);
    let (heads, tails) = get_heads_tails(&freq);
    let sorted_seeds = vec![11, 7, 4, 1];

    let mut sa = place_lms(&sorted_seeds, &mut tails.clone(), &text);
    assert_eq!(sa, vec![11, E, 7, 4, 1, E, E, E, E, E, E, E]);

    let mut h1 = heads.clone();
    induce_l(&text, &mut sa, &ty, &mut h1);
    let expected = naive_sa(&text);
    assert_eq!(expected, vec![11, 10, 7, 4, 1, 0, 9, 8, 6, 3, 5, 2]);
    for (slot, &p) in expected.iter().enumerate() {
        if ty[p] == L {
            assert_eq!(sa[slot], p, "L position {p}");
        }
    }
    assert_eq!(h1[b'i' as usize], heads[b'i' as usize] + 1);
    assert_eq!(h1[b'm' as usize], heads[b'm' as usize] + 1);
    assert_eq!(h1[b'p' as usize], heads[b'p' as usize] + 2);
    assert_eq!(h1[b's' as usize], heads[b's' as usize] + 4);
    assert_eq!(h1[b'$' as usize], heads[b'$' as usize]);

    induce_s(&text, &mut sa, &ty, &mut tails.clone());
    assert_eq!(sa, expected);
}

#[test]
fn l_pass_fills_only_empty_slots() {
    let text = b"mississippi$".to_vec();
    let ty = find_types(&text);
    let lms = find_lms(&ty);
    let freq = get_frequencies(&text);
    let (heads, tails) = get_heads_tails(&freq);

    let placed = place_lms(&lms, &mut tails.clone(), &text);
    assert_eq!(placed, vec![11, E, 1, 4, 7, E, E, E, E, E, E, E]);
    let mut sa = placed.clone();
    induce_l(&text, &mut sa, &ty, &mut heads.clone());
    assert_eq!(sa, vec![11, 10, 1, 4, 7, 0, 9, 8, 3, 6, 2, 5]);
    for x in 0..text.len() {
        if placed[x] != E {
            assert_eq!(sa[x], placed[x]);
        } else {
            assert_eq!(ty[sa[x]], L);
        }
    }

    induce_s(&text, &mut sa, &ty, &mut tails.clone());
    assert_eq!(sa, vec![11, 10, 7, 1, 4, 0, 9, 8, 3, 6, 2, 5]);
    assert!(text[7..] < text[1..]);
    assert!(is_lms_equal(&text, &ty, 1, 4));
}

#[test]
fn frequencies_of_permutations() {
    assert_eq!(get_frequencies(b"banana"), get_frequencies(b"nanaba"));
    assert_eq!(get_frequencies(&[300usize, 1, 300]), get_frequencies(&[1usize, 300, 300]));
    assert_ne!(get_frequencies(b"banana"), get_frequencies(b"bananb"));
}

#[test]
fn aligned_table() {
    let text = [b'a', b'b', 0u8, 200u8];
    let rows = aligned_rows(&text, &[S, L, S, 7], &[3, E, 1234, 0]);
    assert_eq!(
        rows,
        "Index: 0   1   2   3   \nType : S   L   S   ?   \nChar : a   b   \u{0}   .   \nrank : 3   .   1234 0   \n"
    );
    let numbers = [10000usize, 7];
    let rows = aligned_rows(&numbers, &[L, S], &[]);
    assert_eq!(rows, "Index: 0   1   \nType : L   S   \nChar : 10000 7   \nrank : \n");
}
