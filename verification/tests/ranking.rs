use phoenixdb::collection::ranking::{best_first, merge_rankings, Scored};

fn scored(list: &[(&str, f32)]) -> Vec<Scored> {
    list.iter()
        .map(|(id, score)| Scored {
            id: id.as_bytes().to_vec(),
            score: score.to_bits(),
        })
        .collect()
}

fn ids(list: &[Scored]) -> Vec<String> {
    list.iter()
        .map(|s| String::from_utf8(s.id.clone()).unwrap())
        .collect()
}

#[test]
fn higher_scores_come_first() {
    let list = scored(&[("a", 0.5), ("b", 2.0), ("c", -1.0), ("d", 1.25), ("e", -8.0)]);
    let out = best_first(&list, 10);
    assert_eq!(ids(&out), ["b", "d", "a", "c", "e"]);
    assert_eq!(f32::from_bits(out[1].score), 1.25);
}

#[test]
fn equal_scores_are_ordered_by_id() {
    let list = scored(&[("z", 1.0), ("m", 1.0), ("aa", 1.0), ("a", 1.0)]);
    assert_eq!(ids(&best_first(&list, 4)), ["a", "aa", "m", "z"]);
}

#[test]
fn a_list_has_one_ranking() {
    let list = scored(&[("a", 1.0), ("b", 3.0), ("c", 2.0), ("d", 2.0), ("e", 1.0)]);
    let back = scored(&[("e", 1.0), ("d", 2.0), ("c", 2.0), ("b", 3.0), ("a", 1.0)]);
    assert_eq!(ids(&best_first(&list, 4)), ["b", "c", "d", "a"]);
    assert_eq!(ids(&best_first(&back, 4)), ["b", "c", "d", "a"]);
}

#[test]
fn a_ranking_is_cut_off() {
    let list = scored(&[("a", 1.0), ("b", 3.0), ("c", 2.0)]);
    assert_eq!(ids(&best_first(&list, 2)), ["b", "c"]);
    assert!(best_first(&list, 0).is_empty());
    assert!(best_first(&Vec::new(), 5).is_empty());
}

#[test]
fn scores_are_totally_ordered() {
    let list = scored(&[
        ("minus zero", -0.0),
        ("infinity", f32::INFINITY),
        ("nan", f32::NAN),
        ("zero", 0.0),
        ("minus infinity", f32::NEG_INFINITY),
        ("smallest", f32::MIN),
    ]);
    let mut want = list.iter().map(|s| f32::from_bits(s.score)).collect::<Vec<f32>>();
    want.sort_by(|a, b| b.total_cmp(a));
    let got: Vec<u32> = best_first(&list, 6).iter().map(|s| s.score).collect();
    assert_eq!(got, want.iter().map(|s| s.to_bits()).collect::<Vec<u32>>());
}

#[test]
fn a_long_ranking_is_sorted() {
    let mut list = Vec::new();
    for i in 0..500u32 {
        let score = ((i * 7919) % 101) as f32;
        list.push(Scored {
            id: format!("d{i:03}").into_bytes(),
            score: score.to_bits(),
        });
    }
    let out = best_first(&list, 500);
    assert_eq!(out.len(), 500);
    for w in out.windows(2) {
        let (a, b) = (f32::from_bits(w[0].score), f32::from_bits(w[1].score));
        assert!(a > b || a == b && w[0].id < w[1].id);
    }
}

#[test]
fn rankings_are_brought_together_by_id() {
    let v = vec![b"a".to_vec(), b"b".to_vec(), b"c".to_vec()];
    let t = vec![b"c".to_vec(), b"d".to_vec(), b"a".to_vec()];
    let out = merge_rankings(&v, &t);
    let seen: Vec<(&[u8], Option<usize>, Option<usize>)> = out
        .iter()
        .map(|m| (m.id.as_slice(), m.vector, m.text))
        .collect();
    assert_eq!(
        seen,
        [
            (b"a".as_slice(), Some(0), Some(2)),
            (b"b".as_slice(), Some(1), None),
            (b"c".as_slice(), Some(2), Some(0)),
            (b"d".as_slice(), None, Some(1)),
        ]
    );
    assert!(merge_rankings(&Vec::new(), &Vec::new()).is_empty());
}
