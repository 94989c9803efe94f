use mocktree::corpus::wordlist;
use mocktree::phrase::Dict;
use mocktree::builder::{Action, TreeBuilder};
use mocktree::limits::{
    branching, places_directory, Branching, DEPTH_HARD_LIMIT, DIR_HARD_LIMIT, MAX_ITEMS, MIN_ITEMS,
};
use std::collections::{HashMap, HashSet};

fn path(names: &[&str]) -> Vec<String> {
    names.iter().map(|name| name.to_string()).collect()
}

/// What a directory of a simulated tree received.
#[derive(Default)]
struct Seen {
    children: usize,
    dirs: usize,
    kinds: Vec<bool>,
}

/// Builds a tree in memory with the given dictionary and returns, for each
/// directory that was created, what it received, and every path asked for.
fn simulate(depth: u8, dict: &mut Dict) -> (HashMap<Vec<String>, Seen>, Vec<Action>) {
    let mut rng = rand::thread_rng();
    let mut builder = TreeBuilder::new(depth);
    let mut existing: HashSet<Vec<String>> = HashSet::new();
    let mut seen: HashMap<Vec<String>, Seen> = HashMap::new();
    let mut asked: Vec<Action> = Vec::new();
    let mut action = builder.pending();
    loop {
        let created = match &action {
            Action::CreateDir(path) | Action::CreateFile(path) => {
                let is_dir = matches!(action, Action::CreateDir(_));
                if let Some((_, parent)) = path.split_last() {
                    let entry = seen.get_mut(parent).unwrap();
                    entry.children += 1;
                    entry.kinds.push(is_dir);
                    if is_dir {
                        entry.dirs += 1;
                    }
                }
                let created = existing.insert(path.clone());
                if created && is_dir {
                    seen.insert(path.clone(), Seen::default());
                }
                created
            }
            Action::Finish | Action::Abort => break,
        };
        asked.push(action);
        action = builder.step(created, dict, &mut rng);
    }
    asked.push(action);
    (seen, asked)
}

#[test]
fn limits() {
    assert_eq!(MIN_ITEMS, 3);
    assert_eq!(MAX_ITEMS, 50);
    assert_eq!(DEPTH_HARD_LIMIT, 7);
    assert_eq!(DIR_HARD_LIMIT, 4);
}

#[test]
fn branching_at_the_top_is_certain() {
    assert_eq!(branching(0), Branching::Always);
}

#[test]
fn branching_odds_are_one_in_three_times_depth() {
    assert_eq!(branching(1), Branching::OneIn(3));
    assert_eq!(branching(2), Branching::OneIn(6));
    assert_eq!(branching(3), Branching::OneIn(9));
    assert_eq!(branching(4), Branching::OneIn(12));
    assert_eq!(branching(5), Branching::OneIn(15));
    assert_eq!(branching(6), Branching::OneIn(18));
}

#[test]
fn branching_stops_at_the_depth_limit() {
    assert_eq!(branching(7), Branching::Never);
    assert_eq!(branching(8), Branching::Never);
    assert_eq!(branching(255), Branching::Never);
}

#[test]
fn places_directory_at_the_top_until_quota() {
    for coin in [false, true] {
        assert!(places_directory(0, 0, coin));
        assert!(places_directory(0, 3, coin));
        assert!(!places_directory(0, 4, coin));
        assert!(!places_directory(0, 5, coin));
    }
}

#[test]
fn places_directory_by_the_draw_in_between() {
    for depth in 1..7 {
        assert!(places_directory(depth, 0, true));
        assert!(places_directory(depth, 3, true));
        assert!(!places_directory(depth, 4, true));
        assert!(!places_directory(depth, 0, false));
        assert!(!places_directory(depth, 3, false));
    }
}

#[test]
fn places_directory_never_at_the_depth_limit() {
    for depth in [7, 8, 100, 255] {
        for coin in [false, true] {
            assert!(!places_directory(depth, 0, coin));
        }
    }
}

#[test]
fn builder_asks_for_the_root_first() {
    let builder = TreeBuilder::new(0);
    assert_eq!(builder.pending(), Action::CreateDir(vec![]));
    let deep = TreeBuilder::new(9);
    assert_eq!(deep.pending(), Action::CreateDir(vec![]));
}

#[test]
fn failed_root_aborts_the_build() {
    let mut builder = TreeBuilder::new(0);
    assert_eq!(builder.advance(false, 3, true, "a".to_string()), Action::Abort);
    assert_eq!(builder.pending(), Action::Abort);
    assert_eq!(builder.advance(true, 3, true, "b".to_string()), Action::Abort);
    assert_eq!(builder.advance(false, 3, true, "c".to_string()), Action::Abort);
}

#[test]
fn failed_root_aborts_the_build_when_drawing() {
    let mut dict = Dict::default();
    let mut rng = rand::thread_rng();
    let mut builder = TreeBuilder::new(0);
    assert_eq!(builder.step(false, &mut dict, &mut rng), Action::Abort);
    assert_eq!(builder.step(true, &mut dict, &mut rng), Action::Abort);
    assert_eq!(builder.pending(), Action::Abort);
}

#[test]
fn top_level_turns_to_files_after_four_directories() {
    let mut builder = TreeBuilder::new(0);
    // The root is created and receives six items. Each directory below it
    // fails, so the build stays at the top level.
    let names = ["a", "b", "c", "d", "e", "f"];
    let mut actions = Vec::new();
    let mut created = true;
    for name in names {
        actions.push(builder.advance(created, 6, false, name.to_string()));
        created = false;
    }
    assert_eq!(
        actions,
        vec![
            Action::CreateDir(path(&["a"])),
            Action::CreateDir(path(&["b"])),
            Action::CreateDir(path(&["c"])),
            Action::CreateDir(path(&["d"])),
            Action::CreateFile(path(&["e"])),
            Action::CreateFile(path(&["f"])),
        ]
    );
    assert_eq!(builder.advance(true, 6, false, "g".to_string()), Action::Finish);
    assert_eq!(builder.advance(true, 6, false, "h".to_string()), Action::Finish);
}

#[test]
fn directory_receives_exactly_its_item_count() {
    for items in [MIN_ITEMS, 4, 17, MAX_ITEMS] {
        let mut builder = TreeBuilder::new(7);
        let mut count = 0;
        let mut action = builder.advance(true, items, true, "x".to_string());
        while action != Action::Finish {
            assert_eq!(action, Action::CreateFile(path(&["x"])));
            count += 1;
            action = builder.advance(count % 2 == 0, 3, true, "x".to_string());
        }
        assert_eq!(count, items);
    }
}

#[test]
fn failed_directory_counts_against_the_quota() {
    let mut builder = TreeBuilder::new(1);
    let mut dirs = 0;
    let mut files = 0;
    let mut action = builder.advance(true, 10, true, "n".to_string());
    loop {
        match action {
            Action::CreateDir(_) => dirs += 1,
            Action::CreateFile(_) => files += 1,
            _ => break,
        }
        action = builder.advance(false, 10, true, "n".to_string());
    }
    assert_eq!(action, Action::Finish);
    assert_eq!(dirs, 4);
    assert_eq!(files, 6);
}

#[test]
fn draw_decides_below_the_top() {
    let mut builder = TreeBuilder::new(3);
    let first = builder.advance(true, 3, false, "one".to_string());
    assert_eq!(first, Action::CreateFile(path(&["one"])));
    let second = builder.advance(true, 3, true, "two".to_string());
    assert_eq!(second, Action::CreateDir(path(&["two"])));
    // The directory was created: its first item lies in it, at depth 4.
    let inner = builder.advance(true, 3, false, "three".to_string());
    assert_eq!(inner, Action::CreateFile(path(&["two", "three"])));
}

#[test]
fn build_goes_depth_first() {
    let mut builder = TreeBuilder::new(6);
    // The root lies at depth 6, so its items follow the draw, and what lies
    // in a directory below it is a file.
    let mut asked = Vec::new();
    let script = [
        (true, true, "d"),
        (true, false, "f1"),
        (true, true, "f2"),
        (false, true, "f3"),
        (true, false, "g"),
        (true, false, "h"),
        (true, false, "end"),
    ];
    for (created, coin, name) in script {
        asked.push(builder.advance(created, 3, coin, name.to_string()));
    }
    assert_eq!(
        asked,
        vec![
            Action::CreateDir(path(&["d"])),
            Action::CreateFile(path(&["d", "f1"])),
            Action::CreateFile(path(&["d", "f2"])),
            Action::CreateFile(path(&["d", "f3"])),
            Action::CreateFile(path(&["g"])),
            Action::CreateFile(path(&["h"])),
            Action::Finish,
        ]
    );
}

#[test]
fn greediest_build_stays_within_depth_and_quota() {
    // Every draw asks for a directory and every creation succeeds.
    let mut builder = TreeBuilder::new(0);
    let mut action = builder.pending();
    let mut dirs = 0u64;
    let mut files = 0u64;
    let mut deepest_dir = 0;
    let mut deepest_file = 0;
    loop {
        match &action {
            Action::CreateDir(path) => {
                dirs += 1;
                deepest_dir = deepest_dir.max(path.len());
            }
            Action::CreateFile(path) => {
                files += 1;
                deepest_file = deepest_file.max(path.len());
            }
            _ => break,
        }
        action = builder.advance(true, 5, true, "n".to_string());
    }
    assert_eq!(action, Action::Finish);
    assert_eq!(deepest_dir, 7);
    assert_eq!(deepest_file, 8);
    // 4^0 + 4^1 + ... + 4^7 directories, each with five items.
    assert_eq!(dirs, 21845);
    assert_eq!(dirs + files, 1 + 5 * 21845);
}

#[test]
fn root_at_the_depth_limit_holds_files_only() {
    let mut dict = Dict::default();
    let (seen, asked) = simulate(DEPTH_HARD_LIMIT, &mut dict);
    assert_eq!(seen.len(), 1);
    let root = &seen[&vec![]];
    assert!(3 <= root.children && root.children <= 50);
    assert_eq!(root.dirs, 0);
    assert_eq!(asked.len(), root.children + 2);
    assert_eq!(asked.last(), Some(&Action::Finish));
}

#[test]
fn simulated_tree_keeps_the_limits() {
    let mut dict = Dict::default();
    for _ in 0..3 {
        let (seen, asked) = simulate(0, &mut dict);
        assert_eq!(asked.first(), Some(&Action::CreateDir(vec![])));
        assert_eq!(asked.last(), Some(&Action::Finish));
        for (path, dir) in &seen {
            assert!(3 <= dir.children && dir.children <= 50, "{path:?}");
            assert!(dir.dirs <= 4, "{path:?}");
            assert!(path.len() <= 7, "{path:?}");
            if path.len() == 7 {
                assert_eq!(dir.dirs, 0, "{path:?}");
            }
        }
        for action in &asked {
            match action {
                Action::CreateDir(path) => assert!(path.len() <= 7, "{path:?}"),
                Action::CreateFile(path) => assert!(1 <= path.len() && path.len() <= 8, "{path:?}"),
                Action::Finish => {}
                Action::Abort => panic!("the root was created"),
            }
        }
    }
}

#[test]
fn simulated_tree_has_directories_first_at_the_top() {
    let mut dict = Dict::default();
    for _ in 0..5 {
        let (seen, _) = simulate(0, &mut dict);
        let root = &seen[&vec![]];
        assert!(3 <= root.children && root.children <= 50);
        assert_eq!(root.dirs, root.children.min(4));
        for (index, is_dir) in root.kinds.iter().enumerate() {
            assert_eq!(*is_dir, index < 4);
        }
    }
}

#[test]
fn simulated_tree_names_are_phrases() {
    let corpus: HashSet<&str> = wordlist().into_iter().collect();
    let mut dict = Dict::default();
    let (_, asked) = simulate(5, &mut dict);
    for action in &asked {
        if let Action::CreateDir(path) | Action::CreateFile(path) = action {
            for name in path {
                let words: Vec<&str> = name.split(' ').collect();
                assert!(1 <= words.len() && words.len() <= 3);
                assert!(words.iter().all(|word| corpus.contains(word)));
            }
        }
    }
}

#[test]
fn item_counts_cover_the_range() {
    let mut dict = Dict::with_words(vec!["w"]);
    let mut counts: HashSet<usize> = HashSet::new();
    for _ in 0..3000 {
        let (seen, _) = simulate(DEPTH_HARD_LIMIT, &mut dict);
        counts.insert(seen[&vec![]].children);
    }
    assert_eq!(counts.len(), 48);
    assert!(counts.contains(&3) && counts.contains(&50));
}

/// How often, in `runs` builds whose root lies at `depth`, the first item
/// of the root is a directory.
fn first_item_branches(depth: u8, runs: usize) -> usize {
    let mut dict = Dict::default();
    let mut rng = rand::thread_rng();
    let mut hits = 0;
    for _ in 0..runs {
        let mut builder = TreeBuilder::new(depth);
        if let Action::CreateDir(_) = builder.step(true, &mut dict, &mut rng) {
            hits += 1;
        }
    }
    hits
}

#[test]
fn first_item_branches_by_the_odds() {
    let runs = 6000;
    assert_eq!(first_item_branches(0, 100), 100);
    assert_eq!(first_item_branches(7, 100), 0);
    // One in three at depth 1, one in eighteen at depth 6.
    let shallow = first_item_branches(1, runs);
    assert!(runs * 29 / 100 < shallow && shallow < runs * 38 / 100, "{shallow}");
    let deep = first_item_branches(6, runs);
    assert!(runs * 35 / 1000 < deep && deep < runs * 80 / 1000, "{deep}");
}
