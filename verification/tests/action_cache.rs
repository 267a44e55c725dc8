use frame_cache::action_cache::{
    decode, find_landing, ActionCache, ActionKind, SwfMovie, SwfSlice, MAX_ACTIONS, MAX_BLOCKS,
};
use swf::avm1::types::{Action, Value};

fn movie(id: usize, bytes: &[u8]) -> SwfMovie {
    SwfMovie {
        id,
        version: 8,
        data: bytes.to_vec(),
        data_complete: true,
    }
}

fn code(movie: &SwfMovie) -> SwfSlice<'_> {
    SwfSlice {
        movie,
        start: 0,
        end: movie.data.len(),
    }
}

#[test]
fn decodes_push_and_end_once() {
    let movie = movie(1, &[0x96, 2, 0, 0, 0, 0]);
    let mut cache = ActionCache::new();
    let block = cache.get_or_decode(&code(&movie), 8);
    assert!(block.is_some());
    assert_eq!(cache.len(), 1);
}

#[test]
fn jump_target_is_precomputed() {
    let movie = movie(1, &[0x96, 2, 0, 5, 1, 0x9D, 2, 0, 1, 0, 0x17, 0]);
    let mut cache = ActionCache::new();
    let block = cache.get_or_decode(&code(&movie), 8).unwrap();
    assert_eq!(block.actions[1].jump_target, Some(3));
}

#[test]
fn malformed_and_nested_control_flow_fall_back() {
    let malformed = movie(1, &[0x96, 1, 0]);
    let nested = movie(2, &[0x94, 2, 0, 0, 0]);
    let mut cache = ActionCache::new();
    assert!(cache.get_or_decode(&code(&malformed), 8).is_none());
    assert!(cache.get_or_decode(&code(&nested), 8).is_none());
}

#[test]
fn cache_is_bounded() {
    let movies: Vec<SwfMovie> = (0..MAX_BLOCKS + 1).map(|id| movie(id, &[0])).collect();
    let mut cache = ActionCache::new();
    for movie in &movies {
        assert!(cache.get_or_decode(&code(movie), 8).is_some());
    }
    assert_eq!(cache.len(), MAX_BLOCKS);
}

#[test]
fn second_lookup_finds_the_block_of_the_first() {
    let movie = movie(1, &[0x17, 0]);
    let mut cache = ActionCache::new();
    let first = cache.get_or_decode(&code(&movie), 8).unwrap();
    let second = cache.get_or_decode(&code(&movie), 8).unwrap();
    assert!(std::rc::Rc::ptr_eq(&first, &second));
    assert_eq!(cache.len(), 1);
}

#[test]
fn block_used_longest_ago_goes_first() {
    let movies: Vec<SwfMovie> = (0..MAX_BLOCKS + 1).map(|id| movie(id, &[0])).collect();
    let mut cache = ActionCache::new();
    let mut blocks = Vec::new();
    for movie in &movies[..MAX_BLOCKS] {
        blocks.push(cache.get_or_decode(&code(movie), 8).unwrap());
    }
    // The first block is used again, so that the second is now the oldest.
    cache.get_or_decode(&code(&movies[0]), 8).unwrap();
    cache.get_or_decode(&code(&movies[MAX_BLOCKS]), 8).unwrap();
    let first = cache.get_or_decode(&code(&movies[0]), 8).unwrap();
    let second = cache.get_or_decode(&code(&movies[1]), 8).unwrap();
    assert!(std::rc::Rc::ptr_eq(&blocks[0], &first));
    assert!(!std::rc::Rc::ptr_eq(&blocks[1], &second));
}

#[test]
fn blocks_share_a_limit_on_actions() {
    let half = MAX_ACTIONS / 2;
    let movies: Vec<SwfMovie> = (0..3)
        .map(|id| {
            let mut bytes = vec![0x17; half - 1];
            bytes.push(0);
            movie(id, &bytes)
        })
        .collect();
    let mut cache = ActionCache::new();
    cache.get_or_decode(&code(&movies[0]), 8).unwrap();
    cache.get_or_decode(&code(&movies[1]), 8).unwrap();
    assert_eq!(cache.len(), 2);
    let block = cache.get_or_decode(&code(&movies[2]), 8).unwrap();
    assert_eq!(block.actions.len(), half);
    assert_eq!(cache.len(), 2);
}

#[test]
fn too_many_actions_are_not_kept() {
    let mut most = vec![0x17; MAX_ACTIONS - 1];
    most.push(0);
    let fits = movie(1, &most);
    most.push(0);
    most[MAX_ACTIONS - 1] = 0x17;
    let exceeds = movie(2, &most);
    let mut cache = ActionCache::new();
    assert!(cache.get_or_decode(&code(&exceeds), 8).is_none());
    assert_eq!(cache.len(), 0);
    assert!(cache.get_or_decode(&code(&fits), 8).is_some());
    assert_eq!(cache.len(), 1);
}

#[test]
fn empty_code_is_not_kept() {
    let movie = movie(1, &[]);
    let mut cache = ActionCache::new();
    assert!(cache.get_or_decode(&code(&movie), 8).is_none());
    assert_eq!(cache.len(), 0);
}

#[test]
fn code_of_another_version_or_of_an_unfinished_movie_is_not_kept() {
    let complete = movie(1, &[0]);
    let mut partial = movie(2, &[0]);
    partial.data_complete = false;
    let mut cache = ActionCache::new();
    assert!(cache.get_or_decode(&code(&complete), 7).is_none());
    assert!(cache.get_or_decode(&code(&partial), 8).is_none());
    let beyond = SwfSlice {
        movie: &complete,
        start: 0,
        end: 2,
    };
    assert!(cache.get_or_decode(&beyond, 8).is_none());
}

#[test]
fn actions_come_out_as_they_were_read() {
    let movie = movie(1, &[0x96, 2, 0, 5, 1, 0x17, 0]);
    let block = decode(&code(&movie), 8).unwrap();
    assert_eq!(block.actions.len(), 3);
    match &block.actions[0].action {
        Action::Push(push) => assert_eq!(push.values, vec![Value::Bool(true)]),
        other => panic!("expected a push, not {:?}", other),
    }
    assert_eq!(block.actions[1].action, Action::Pop);
    assert_eq!(block.actions[2].action, Action::End);
    let next: Vec<usize> = block.actions.iter().map(|action| action.next).collect();
    assert_eq!(next, vec![5, 6, 7]);
}

#[test]
fn decoding_stops_at_the_first_end() {
    let movie = movie(1, &[0x17, 0, 0x17]);
    let block = decode(&code(&movie), 8).unwrap();
    assert_eq!(block.actions.len(), 2);
}

#[test]
fn jump_between_actions_returns() {
    // The target lies inside the push.
    let movie = movie(1, &[0x99, 2, 0, 1, 0, 0x96, 2, 0, 5, 1, 0]);
    let block = decode(&code(&movie), 8).unwrap();
    assert_eq!(block.actions.len(), 3);
    assert_eq!(block.actions[0].jump_target, Some(3));
}

#[test]
fn jump_backwards_finds_its_action() {
    let movie = movie(1, &[0x17, 0x99, 2, 0, 0xFA, 0xFF, 0]);
    let block = decode(&code(&movie), 8).unwrap();
    assert_eq!(block.actions[1].jump_target, Some(0));
}

#[test]
fn jump_out_of_the_code_is_refused() {
    let after = movie(1, &[0x99, 2, 0, 2, 0, 0]);
    assert!(decode(&code(&after), 8).is_none());
    let before = movie(2, &[0x99, 2, 0, 0xFA, 0xFF, 0]);
    assert!(decode(&code(&before), 8).is_none());
    let end = movie(3, &[0x99, 2, 0, 1, 0, 0]);
    assert_eq!(
        decode(&code(&end), 8).unwrap().actions[0].jump_target,
        Some(2)
    );
}

#[test]
fn unsupported_actions_are_refused() {
    assert_eq!(find_landing(ActionKind::Try, 0, 10, 5), None);
    assert_eq!(find_landing(ActionKind::With, 0, 10, 5), None);
    assert_eq!(find_landing(ActionKind::WaitForFrame, 0, 10, 5), None);
    assert_eq!(find_landing(ActionKind::WaitForFrame2, 0, 10, 5), None);
    assert_eq!(find_landing(ActionKind::Other, 0, 10, 5), Some(None));
    assert_eq!(find_landing(ActionKind::End, 0, 10, 5), Some(None));
    assert_eq!(
        find_landing(ActionKind::If { offset: -5 }, 3, 13, 5),
        Some(Some(0))
    );
    assert_eq!(find_landing(ActionKind::Jump { offset: -6 }, 3, 13, 5), None);
    assert_eq!(
        find_landing(ActionKind::Jump { offset: 5 }, 3, 13, 5),
        Some(Some(10))
    );
    assert_eq!(find_landing(ActionKind::Jump { offset: 6 }, 3, 13, 5), None);
}

#[test]
fn positions_count_on_to_the_end_of_the_movie() {
    let movie = movie(1, &[0x17, 0, 0x17, 0x17, 0x17]);
    let code = SwfSlice {
        movie: &movie,
        start: 0,
        end: 2,
    };
    let block = decode(&code, 8).unwrap();
    let next: Vec<usize> = block.actions.iter().map(|action| action.next).collect();
    assert_eq!(next, vec![4, 5]);
}

#[test]
fn code_inside_a_movie_is_read_from_its_start() {
    let movie = movie(1, &[0x17, 0x17, 0x96, 2, 0, 5, 1, 0]);
    let code = SwfSlice {
        movie: &movie,
        start: 2,
        end: 8,
    };
    let block = decode(&code, 8).unwrap();
    assert!(matches!(block.actions[0].action, Action::Push(_)));
    assert_eq!(block.actions.len(), 2);
    assert_eq!(block.actions[0].next, 5);
}
