use algorithms::string::manacher::naive_palindrome;
use algorithms::string::manacher::Manacher;
use algorithms::string::manacher::ManacherString;
use algorithms::string::manacher::ManacherValue;

fn match_naive<T: Eq>(s: &[T], m: &Manacher) -> bool {
    for l in 0..=s.len() {
        for r in 0..=s.len() {
            if naive_palindrome(s, l, r) != m.is_palindrome(l, r) {
                return false;
            }
        }
    }
    true
}

fn is_reverse_of_itself<T: Eq>(s: &[T]) -> bool {
    s.iter().eq(s.iter().rev())
}

fn longest_by_brute_force<T: Eq>(s: &[T]) -> usize {
    let mut best = 0;
    for l in 0..=s.len() {
        for r in l..=s.len() {
            if is_reverse_of_itself(&s[l..r]) && r - l > best {
                best = r - l;
            }
        }
    }
    best
}

fn words(alphabet: &[u8], len: usize) -> Vec<Vec<u8>> {
    let mut all: Vec<Vec<u8>> = vec![Vec::new()];
    for _ in 0..len {
        let mut longer = Vec::new();
        for w in &all {
            for c in alphabet {
                let mut v = w.clone();
                v.push(*c);
                longer.push(v);
            }
        }
        all = longer;
    }
    all
}

#[test]
fn test_ascii() {
    let s = "bananas";
    let m = Manacher::new(s.as_bytes());

    assert_eq!(5, m.max_palindrome_len());

    let mut iter_max = m.iter_of_max();
    assert_eq!(Some(1..6), iter_max.next());
    assert_eq!(None, iter_max.next());

    assert!(!m.is_palindrome(0, 2));
    assert!(m.is_palindrome(1, 4));

    assert!(match_naive(s.as_bytes(), &m));
}

#[test]
fn test_ascii_2() {
    let s = "abracadabra";
    let m = Manacher::new(s.as_bytes());

    assert_eq!(3, m.max_palindrome_len());

    let mut iter_max = m.iter_of_max();
    assert_eq!(Some(3..6), iter_max.next());
    assert_eq!(Some(5..8), iter_max.next());

    assert!(match_naive(s.as_bytes(), &m));
}

#[test]
fn test_utf8() {
    let s: Vec<char> = "上海自来水来自海上A中山诸罗茶罗诸山中B山东落花生花落东山C花莲喷水池水喷莲花".chars().collect();
    let m = Manacher::new(&s);
    assert_eq!(9, m.max_palindrome_len());

    let mut iter_max = m.iter_of_max();
    assert_eq!(Some(0..9), iter_max.next());
    assert_eq!(Some(10..19), iter_max.next());
    assert_eq!(Some(20..29), iter_max.next());
    assert_eq!(Some(30..39), iter_max.next());
    assert_eq!(None, iter_max.next());

    assert!(match_naive(&s, &m));
}

#[test]
fn abracadabra_has_two_longest_and_no_more() {
    let m = Manacher::new("abracadabra".as_bytes());
    let mut iter_max = m.iter_of_max();
    assert_eq!(Some(3..6), iter_max.next());
    assert_eq!(Some(5..8), iter_max.next());
    assert_eq!(None, iter_max.next());
    assert_eq!(None, iter_max.next());
}

#[test]
fn empty_sequence() {
    let s: Vec<u8> = Vec::new();
    let m = Manacher::new(&s);
    assert_eq!(0, m.max_palindrome_len());
    assert_eq!(None, m.iter_of_max().next());
    assert_eq!(None, m.iter_of_len(0).next());
    assert_eq!(None, m.iter_of_len(1).next());
    assert!(m.is_palindrome(0, 0));
}

#[test]
fn single_element() {
    let m = Manacher::new("x".as_bytes());
    assert_eq!(1, m.max_palindrome_len());
    assert_eq!(0..1, m.odd_longest_at(0));
    assert_eq!(1..1, m.even_longest_at(0, 1));
    let mut it = m.iter_of_max();
    assert_eq!(Some(0..1), it.next());
    assert_eq!(None, it.next());
    assert!(m.is_palindrome(0, 1));
    assert!(m.is_palindrome(0, 0));
    assert!(m.is_palindrome(1, 1));
}

#[test]
fn zero_length_enumeration_is_empty() {
    let m = Manacher::new("abba".as_bytes());
    assert_eq!(None, m.iter_of_len(0).next());
}

#[test]
fn windows_of_each_length() {
    let m = Manacher::new("bananas".as_bytes());
    let collect = |len: usize| {
        let mut it = m.iter_of_len(len);
        let mut all = Vec::new();
        while let Some(r) = it.next() {
            all.push(r);
        }
        all
    };
    assert_eq!(vec![0..1, 1..2, 2..3, 3..4, 4..5, 5..6, 6..7], collect(1));
    assert_eq!(Vec::<std::ops::Range<usize>>::new(), collect(2));
    assert_eq!(vec![1..4, 2..5, 3..6], collect(3));
    assert_eq!(Vec::<std::ops::Range<usize>>::new(), collect(4));
    assert_eq!(vec![1..6], collect(5));
    assert_eq!(Vec::<std::ops::Range<usize>>::new(), collect(6));
    assert_eq!(Vec::<std::ops::Range<usize>>::new(), collect(7));
    assert_eq!(Vec::<std::ops::Range<usize>>::new(), collect(8));
}

#[test]
fn windows_of_even_length() {
    let m = Manacher::new("aabbaa".as_bytes());
    let mut it = m.iter_of_len(2);
    assert_eq!(Some(0..2), it.next());
    assert_eq!(Some(2..4), it.next());
    assert_eq!(Some(4..6), it.next());
    assert_eq!(None, it.next());
    let mut it = m.iter_of_len(4);
    assert_eq!(Some(1..5), it.next());
    assert_eq!(None, it.next());
    let mut it = m.iter_of_max();
    assert_eq!(Some(0..6), it.next());
    assert_eq!(None, it.next());
}

#[test]
fn enumerations_are_independent() {
    let m = Manacher::new("abracadabra".as_bytes());
    let mut first = m.iter_of_max();
    assert_eq!(Some(3..6), first.next());
    let mut second = m.iter_of_max();
    assert_eq!(Some(3..6), second.next());
    assert_eq!(Some(5..8), first.next());
    assert_eq!(Some(5..8), second.next());
}

#[test]
fn longest_at_a_centre() {
    let m = Manacher::new("abba".as_bytes());
    assert_eq!(0..1, m.odd_longest_at(0));
    assert_eq!(1..2, m.odd_longest_at(1));
    assert_eq!(2..3, m.odd_longest_at(2));
    assert_eq!(3..4, m.odd_longest_at(3));
    assert_eq!(1..1, m.even_longest_at(0, 1));
    assert_eq!(0..4, m.even_longest_at(1, 2));
    assert_eq!(3..3, m.even_longest_at(2, 3));
    assert_eq!(4..4, m.even_longest_at(3, 4));

    let m = Manacher::new("bananas".as_bytes());
    assert_eq!(1..6, m.odd_longest_at(3));
    assert_eq!(1..4, m.odd_longest_at(2));
    assert_eq!(3..6, m.odd_longest_at(4));
    assert_eq!(6..7, m.odd_longest_at(6));
}

#[test]
fn is_palindrome_matches_the_naive_check_on_all_short_words() {
    for len in 0..=8 {
        for w in words(b"ab", len) {
            let m = Manacher::new(&w);
            assert!(match_naive(&w, &m));
        }
    }
    for len in 0..=5 {
        for w in words(b"abc", len) {
            let m = Manacher::new(&w);
            assert!(match_naive(&w, &m));
        }
    }
    let w = b"abacabadabac".to_vec();
    assert_eq!(12, w.len());
    assert!(match_naive(&w, &Manacher::new(&w)));
}

#[test]
fn max_palindrome_len_matches_brute_force() {
    for len in 0..=9 {
        for w in words(b"ab", len) {
            assert_eq!(longest_by_brute_force(&w), Manacher::new(&w).max_palindrome_len());
        }
    }
    for len in 0..=6 {
        for w in words(b"xyz", len) {
            assert_eq!(longest_by_brute_force(&w), Manacher::new(&w).max_palindrome_len());
        }
    }
}

#[test]
fn longest_windows_ascend_without_repeats() {
    for len in 0..=9 {
        for w in words(b"ab", len) {
            let m = Manacher::new(&w);
            let max = m.max_palindrome_len();
            let mut it = m.iter_of_max();
            let mut last: Option<usize> = None;
            let mut count = 0;
            while let Some(r) = it.next() {
                assert_eq!(max, r.end - r.start);
                assert!(is_reverse_of_itself(&w[r.clone()]));
                if let Some(prev) = last {
                    assert!(prev < r.start);
                }
                last = Some(r.start);
                count += 1;
            }
            let expected = (0..=w.len())
                .filter(|l| max > 0 && l + max <= w.len() && is_reverse_of_itself(&w[*l..l + max]))
                .count();
            assert_eq!(expected, count);
        }
    }
}

#[test]
fn naive_palindrome_on_given_ranges() {
    let s = "bananas".as_bytes();
    assert!(naive_palindrome(s, 1, 6));
    assert!(naive_palindrome(s, 1, 4));
    assert!(!naive_palindrome(s, 0, 2));
    assert!(!naive_palindrome(s, 0, 7));
    assert!(naive_palindrome(s, 3, 3));
    assert!(naive_palindrome(s, 7, 7));
    assert!(naive_palindrome(s, 5, 2));
    assert!(naive_palindrome(s, 6, 7));
}

#[test]
fn reversed_range_counts_as_palindrome() {
    let m = Manacher::new("ab".as_bytes());
    assert!(m.is_palindrome(2, 0));
    assert!(m.is_palindrome(1, 0));
    assert!(!m.is_palindrome(0, 2));
}

#[test]
fn transformed_view() {
    let s = "aba".as_bytes();
    let t = ManacherString::new(s);
    assert_eq!(7, t.len());
    assert!(matches!(t.get(0), ManacherValue::Sep));
    assert!(matches!(t.get(1), ManacherValue::Char(b'a')));
    assert!(matches!(t.get(2), ManacherValue::Sep));
    assert!(matches!(t.get(3), ManacherValue::Char(b'b')));
    assert!(matches!(t.get(5), ManacherValue::Char(b'a')));
    assert!(matches!(t.get(6), ManacherValue::Sep));
    assert!(t.is_equal(0, 6));
    assert!(t.is_equal(2, 2));
    assert!(t.is_equal(1, 5));
    assert!(t.is_equal(3, 3));
    assert!(!t.is_equal(1, 3));
    assert!(!t.is_equal(0, 1));
    assert!(!t.is_equal(5, 4));
}

#[test]
fn long_run_of_one_element() {
    let s = vec![7u8; 300_000];
    let m = Manacher::new(&s);
    assert_eq!(300_000, m.max_palindrome_len());
    assert!(m.is_palindrome(1, 299_999));
    assert_eq!(0..299_999, m.odd_longest_at(149_999));
    let mut it = m.iter_of_max();
    assert_eq!(Some(0..300_000), it.next());
    assert_eq!(None, it.next());
}

#[test]
fn longest_ranges_stay_inside_the_sequence() {
    for len in 0..=8 {
        for w in words(b"ab", len) {
            let m = Manacher::new(&w);
            assert!(m.max_palindrome_len() <= w.len());
            for si in 0..w.len() {
                let odd = m.odd_longest_at(si);
                assert!(odd.start <= si && si < odd.end && odd.end <= w.len());
                assert_eq!(1, (odd.end - odd.start) % 2);
                assert_eq!(si - odd.start, odd.end - 1 - si);
                assert!(is_reverse_of_itself(&w[odd.clone()]));
                assert!(odd.start == 0 || odd.end == w.len() || w[odd.start - 1] != w[odd.end]);
                let even = m.even_longest_at(si, si + 1);
                assert!(even.start <= si + 1 && si + 1 <= even.end && even.end <= w.len());
                assert_eq!(0, (even.end - even.start) % 2);
                assert_eq!(si + 1 - even.start, even.end - (si + 1));
                assert!(is_reverse_of_itself(&w[even.clone()]));
                assert!(even.start == 0 || even.end == w.len() || w[even.start - 1] != w[even.end]);
            }
        }
    }
}
