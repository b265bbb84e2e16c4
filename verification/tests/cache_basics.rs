use common_cache::{CommonCache, Index};
use rand::rngs::StdRng;
use rand::SeedableRng;

fn seeded(base: usize, max_size: Option<usize>, seed: u64) -> CommonCache {
    CommonCache::new_with_rng(base, max_size, StdRng::seed_from_u64(seed))
}

fn keys_of(cache: &CommonCache) -> Vec<u64> {
    let mut keys: Vec<u64> = cache.iter().iter().map(|p| p.0).collect();
    keys.sort();
    keys
}

fn level_of(cache: &mut CommonCache, key: u64) -> usize {
    cache.entry(key).unwrap().level
}

#[test]
fn new_cache_is_empty() {
    let cache = seeded(2, None, 1);
    assert_eq!(cache.size(), 0);
    assert_eq!(cache.max_size(), usize::MAX);
    assert_eq!(cache.generation(), 0);
    assert!(cache.iter().is_empty());
    let bounded = seeded(3, Some(2), 1);
    assert_eq!(bounded.max_size(), 2);
    assert_eq!(bounded.size(), 0);
}

#[test]
fn new_draws_from_a_fresh_generator() {
    let mut cache = CommonCache::new(2, None);
    let entry = cache.insert(4, 17);
    assert_eq!(entry.peek_key_value(), (&4, &17));
    assert_eq!(cache.size(), 1);
    assert_eq!(cache.generation(), 1);
}

#[test]
fn first_insert_makes_the_top_level() {
    let mut cache = seeded(2, None, 7);
    let entry = cache.insert(1, 10);
    assert_eq!(entry.level, 0);
    assert_eq!(entry.idx, 0);
    assert_eq!(cache.size(), 1);
    assert_eq!(cache.iter(), vec![(1, 10)]);
    assert_eq!(cache.levels(), vec![vec![(1, 10)]]);
}

#[test]
fn second_insert_keeps_both_keys() {
    for seed in 0..20 {
        let mut cache = seeded(2, None, seed);
        cache.insert(1, 10);
        let entry = cache.insert(2, 20);
        assert_eq!(entry.level, 0);
        assert_eq!(entry.peek_key_value(), (&2, &20));
        assert_eq!(cache.size(), 2);
        assert_eq!(keys_of(&cache), vec![1, 2]);
        // Level 0 has the nominal capacity 1, so its one item always falls.
        assert_eq!(cache.iter(), vec![(2, 20), (1, 10)]);
        assert_eq!(level_of(&mut cache, 1), 1);
    }
}

#[test]
fn full_cache_evicts_one_of_the_old_items() {
    for seed in 0..20 {
        let mut cache = seeded(2, Some(2), seed);
        cache.insert(1, 10);
        cache.insert(2, 20);
        assert_eq!(cache.size(), 2);
        cache.insert(3, 30);
        assert_eq!(cache.size(), 2);
        let keys = keys_of(&cache);
        assert!(keys.contains(&3));
        assert!(keys == vec![1, 3] || keys == vec![2, 3]);
        assert_eq!(cache.generation(), 3);
    }
}

#[test]
fn size_never_exceeds_the_bound() {
    let mut cache = seeded(2, Some(5), 11);
    for key in 0..200u64 {
        cache.insert(key % 17, key);
        assert!(cache.size() <= 5);
        let mut entry = cache.entry(key % 17).unwrap();
        assert_eq!(*entry.get_value(), key);
        assert!(cache.size() <= 5);
    }
}

#[test]
fn get_promotes_one_level() {
    for seed in 0..20 {
        let mut cache = seeded(2, None, seed);
        for key in 1..=8u64 {
            cache.insert(key, key * 100);
        }
        assert_eq!(cache.size(), 8);
        let generation = cache.generation();
        let mut entry = cache.entry(1).unwrap();
        let previous_level = entry.level;
        assert_eq!(*entry.get_value(), 100);
        assert_eq!(entry.level, previous_level.saturating_sub(1));
        assert_eq!(entry.peek_key_value(), (&1, &100));
        assert_eq!(cache.generation(), generation + 1);
        assert!(cache.size() == 8 || cache.size() == 7);
        assert!(keys_of(&cache).contains(&1));
    }
}

#[test]
fn get_at_the_top_stays_at_the_top() {
    let mut cache = seeded(2, None, 3);
    cache.insert(1, 10);
    let mut entry = cache.entry(1).unwrap();
    assert_eq!(entry.level, 0);
    assert_eq!(entry.get_key_value(), (&1, &mut 10));
    assert_eq!(entry.level, 0);
    assert_eq!(cache.size(), 1);
}

#[test]
fn get_long_promotes_and_hands_out_the_item() {
    let mut cache = seeded(2, None, 5);
    for key in 1..=6u64 {
        cache.insert(key, key + 1);
    }
    let level = level_of(&mut cache, 1);
    let (key, value) = cache.entry(1).unwrap().get_long();
    assert_eq!((*key, *value), (1, 2));
    *value = 77;
    assert_eq!(level_of(&mut cache, 1), level.saturating_sub(1));
    assert_eq!(cache.entry(1).unwrap().peek_value(), &77);
}

#[test]
fn reinsert_promotes_and_replaces_the_value() {
    for seed in 0..20 {
        let mut cache = seeded(2, None, seed);
        for key in 1..=8u64 {
            cache.insert(key, key);
        }
        let level = level_of(&mut cache, 3);
        let entry = cache.insert(3, 333);
        assert_eq!(entry.level, level.saturating_sub(1));
        assert_eq!(entry.peek_key_value(), (&3, &333));
        assert_eq!(cache.size(), 8);
        assert_eq!(keys_of(&cache), vec![1, 2, 3, 4, 5, 6, 7, 8]);
    }
}

#[test]
fn new_item_enters_one_level_above_the_bottom() {
    let mut cache = seeded(2, None, 9);
    for key in 1..=30u64 {
        let depth_before = cache.levels().len();
        let entry = cache.insert(key, 0);
        assert_eq!(entry.level, depth_before.saturating_sub(2));
    }
}

#[test]
fn inserted_keys_come_back_from_iteration() {
    for seed in 0..10 {
        let mut cache = seeded(3, None, seed);
        for key in 0..50u64 {
            cache.insert(key * 7, key);
        }
        assert_eq!(cache.size(), 50);
        let expected: Vec<u64> = (0..50u64).map(|k| k * 7).collect();
        assert_eq!(keys_of(&cache), expected);
        for (key, value) in cache.iter() {
            assert_eq!(key, value * 7);
        }
    }
}

#[test]
fn iteration_goes_level_by_level() {
    let mut cache = seeded(2, None, 21);
    for key in 0..40u64 {
        cache.insert(key, key);
    }
    let items = cache.iter();
    let mut last_level = 0;
    for (key, _) in items {
        let level = level_of(&mut cache, key);
        assert!(level >= last_level);
        last_level = level;
    }
}

#[test]
fn peek_changes_nothing() {
    let mut cache = seeded(2, None, 2);
    for key in 0..10u64 {
        cache.insert(key, key);
    }
    let generation = cache.generation();
    let before = cache.iter();
    {
        let entry = cache.entry(4).unwrap();
        assert_eq!(entry.peek_key(), &4);
        assert_eq!(entry.peek_value(), &4);
        assert_eq!(entry.peek_key_value(), (&4, &4));
    }
    assert_eq!(cache.iter(), before);
    assert_eq!(cache.generation(), generation);
    assert_eq!(cache.size(), 10);
}

#[test]
fn peek_mut_writes_the_value_in_place() {
    let mut cache = seeded(2, None, 2);
    for key in 0..10u64 {
        cache.insert(key, key);
    }
    let generation = cache.generation();
    let before = cache.iter();
    {
        let mut entry = cache.entry(4).unwrap();
        *entry.peek_value_mut() = 44;
        let (key, value) = entry.peek_key_value_mut();
        assert_eq!((*key, *value), (4, 44));
        *value = 45;
        let (key, value) = entry.peek_long();
        assert_eq!((*key, *value), (4, 45));
        *value = 46;
    }
    let after = cache.iter();
    assert_eq!(after.len(), before.len());
    for (a, b) in after.iter().zip(before.iter()) {
        assert_eq!(a.0, b.0);
        assert_eq!(a.1, if a.0 == 4 { 46 } else { b.1 });
    }
    assert_eq!(cache.generation(), generation);
}

#[test]
fn remove_takes_the_item_out() {
    let mut cache = seeded(2, None, 4);
    for key in 0..10u64 {
        cache.insert(key, key + 1);
    }
    let generation = cache.generation();
    let removed = cache.entry(6).unwrap().remove();
    assert_eq!(removed, (6, 7));
    assert_eq!(cache.size(), 9);
    assert!(cache.entry(6).is_none());
    assert_eq!(keys_of(&cache), vec![0, 1, 2, 3, 4, 5, 7, 8, 9]);
    assert_eq!(cache.generation(), generation + 1);
}

#[test]
fn removing_everything_leaves_no_level() {
    let mut cache = seeded(2, None, 4);
    for key in 0..10u64 {
        cache.insert(key, key);
    }
    for key in 0..10u64 {
        cache.entry(key).unwrap().remove();
        assert_eq!(cache.size(), 9 - key as usize);
    }
    assert!(cache.iter().is_empty());
    let entry = cache.insert(5, 5);
    assert_eq!((entry.level, entry.idx), (0, 0));
}

#[test]
fn entry_of_an_absent_key_is_none() {
    let mut cache = seeded(2, None, 4);
    assert!(cache.entry(1).is_none());
    cache.insert(1, 1);
    assert!(cache.entry(2).is_none());
    assert!(cache.entry(1).is_some());
}

#[test]
fn clear_empties_the_cache() {
    let mut cache = seeded(2, Some(100), 4);
    for key in 0..10u64 {
        cache.insert(key, key);
    }
    cache.clear();
    assert_eq!(cache.size(), 0);
    assert_eq!(cache.generation(), 11);
    assert_eq!(cache.max_size(), 100);
    assert!(cache.entry(3).is_none());
}

#[test]
fn lowering_the_bound_evicts() {
    for seed in 0..20 {
        let mut cache = seeded(2, Some(100), seed);
        for key in 0..10u64 {
            cache.insert(key, key);
        }
        assert_eq!(cache.size(), 10);
        let before = cache.iter();
        let generation = cache.generation();
        cache.set_max_size(2);
        assert_eq!(cache.size(), 2);
        assert_eq!(cache.max_size(), 2);
        assert_eq!(cache.generation(), generation + 1);
        for item in cache.iter() {
            assert!(before.contains(&item));
        }
        cache.insert(100, 100);
        assert_eq!(cache.size(), 2);
    }
}

#[test]
fn lowering_the_bound_keeps_the_upper_levels() {
    let mut cache = seeded(2, Some(100), 13);
    for key in 0..20u64 {
        cache.insert(key, key);
    }
    let before = cache.levels();
    assert!(before.len() > 2);
    assert!(!before[1].is_empty());
    let first_two_levels = before[0].len() + before[1].len();
    assert!(first_two_levels >= 2);
    cache.set_max_size(first_two_levels);
    assert_eq!(cache.levels(), before[..2].to_vec());
}

#[test]
fn raising_the_bound_changes_nothing_else() {
    let mut cache = seeded(2, Some(10), 4);
    for key in 0..10u64 {
        cache.insert(key, key);
    }
    let before = cache.iter();
    let generation = cache.generation();
    cache.set_max_size(10);
    assert_eq!(cache.generation(), generation);
    cache.set_max_size(1000);
    assert_eq!(cache.max_size(), 1000);
    assert_eq!(cache.generation(), generation);
    assert_eq!(cache.iter(), before);
}

#[test]
fn lowering_the_bound_above_the_size_only_advances_the_generation() {
    let mut cache = seeded(2, Some(100), 4);
    for key in 0..10u64 {
        cache.insert(key, key);
    }
    let before = cache.iter();
    let generation = cache.generation();
    cache.set_max_size(10);
    assert_eq!(cache.iter(), before);
    assert_eq!(cache.max_size(), 10);
    assert_eq!(cache.generation(), generation + 1);
}

#[test]
fn find_first_without_a_match() {
    let mut cache = seeded(2, None, 4);
    for key in 0..10u64 {
        cache.insert(key, key);
    }
    let generation = cache.generation();
    assert!(cache.find_first(|key, _| *key == 1000).is_none());
    assert_eq!(cache.generation(), generation);
    assert_eq!(cache.size(), 10);
}

#[test]
fn find_first_returns_the_first_in_iteration_order() {
    let mut cache = seeded(2, None, 4);
    for key in 0..10u64 {
        cache.insert(key, key % 2);
    }
    let first_odd = cache.iter().into_iter().find(|p| p.1 == 1).unwrap();
    let found = cache.find_first(|_, value| *value == 1).unwrap();
    assert_eq!(found.peek_key_value(), (&first_odd.0, &first_odd.1));
    let top = cache.iter()[0];
    let found = cache.find_first(|_, _| true).unwrap();
    assert_eq!((found.level, found.idx), (0, 0));
    assert_eq!(found.peek_key(), &top.0);
}

#[test]
fn index_round_trip() {
    let mut cache = seeded(2, None, 4);
    for key in 0..10u64 {
        cache.insert(key, key + 1);
    }
    let entry = cache.entry(3).unwrap();
    let (level, idx) = (entry.level, entry.idx);
    let index = entry.index();
    assert_eq!(index, Index { level, idx, generation: cache.generation() });
    assert!(index.matches(&cache));
    assert_eq!(index.peek_key_value(&cache), (&3, &4));
    assert_eq!(index.peek_key(&cache), &3);
    assert_eq!(index.peek_value(&cache), &4);
    *index.peek_value_mut(&mut cache) = 40;
    assert!(index.matches(&cache));
    let (key, value) = index.peek_key_value_mut(&mut cache);
    assert_eq!((*key, *value), (3, 40));
    let entry = index.clone().entry(&mut cache);
    assert_eq!(entry.peek_key_value(), (&3, &40));
    let (key, value) = index.clone().get_key_value(&mut cache);
    assert_eq!((*key, *value), (3, 40));
    assert!(!index.matches(&cache));
    assert_eq!(cache.entry(3).unwrap().level, level.saturating_sub(1));
}

#[test]
fn index_get_value_promotes() {
    let mut cache = seeded(2, None, 8);
    for key in 0..10u64 {
        cache.insert(key, key + 1);
    }
    let entry = cache.entry(0).unwrap();
    let level = entry.level;
    let (index, cache_again) = entry.index_and_cache();
    let generation = cache_again.generation();
    assert_eq!(*index.get_value(cache_again), 1);
    assert_eq!(cache.generation(), generation + 1);
    assert_eq!(cache.entry(0).unwrap().level, level.saturating_sub(1));
}

#[test]
fn index_goes_stale_on_every_restructuring() {
    let mut cache = seeded(2, Some(100), 4);
    for key in 0..10u64 {
        cache.insert(key, key);
    }
    let index = cache.entry(3).unwrap().index();
    assert!(index.matches(&cache));
    cache.insert(50, 50);
    assert!(!index.matches(&cache));
    let index = cache.entry(3).unwrap().index();
    cache.entry(4).unwrap().remove();
    assert!(!index.matches(&cache));
    let index = cache.entry(3).unwrap().index();
    cache.set_max_size(50);
    assert!(!index.matches(&cache));
    let index = cache.entry(3).unwrap().index();
    cache.clear();
    assert!(!index.matches(&cache));
}

#[test]
fn index_outside_the_cache_does_not_match() {
    let mut cache = seeded(2, None, 4);
    cache.insert(1, 1);
    let generation = cache.generation();
    assert!(Index { level: 0, idx: 0, generation }.matches(&cache));
    assert!(!Index { level: 0, idx: 1, generation }.matches(&cache));
    assert!(!Index { level: 1, idx: 0, generation }.matches(&cache));
    assert!(!Index { level: 0, idx: 0, generation: generation + 1 }.matches(&cache));
}

#[test]
fn same_seed_same_cache() {
    let mut a = seeded(2, Some(20), 99);
    let mut b = seeded(2, Some(20), 99);
    for key in 0..100u64 {
        a.insert(key % 31, key);
        b.insert(key % 31, key);
        if key % 3 == 0 {
            if let Some(mut entry) = a.entry(key % 7) {
                entry.get_value();
            }
            if let Some(mut entry) = b.entry(key % 7) {
                entry.get_value();
            }
        }
    }
    assert_eq!(a.iter(), b.iter());
    assert_eq!(a.generation(), b.generation());
}

#[test]
fn large_base_keeps_level_capacities_in_range() {
    let mut cache = seeded(usize::MAX, None, 6);
    for key in 0..30u64 {
        cache.insert(key, key);
    }
    assert_eq!(cache.size(), 30);
    assert_eq!(keys_of(&cache).len(), 30);
}

#[test]
fn levels_round_trip() {
    let mut cache = seeded(2, Some(64), 17);
    for key in 0..40u64 {
        cache.insert(key, key * 3);
    }
    let levels = cache.levels();
    let flat: Vec<(u64, u64)> = levels.iter().flatten().copied().collect();
    assert_eq!(flat, cache.iter());
    assert!(!levels.last().unwrap().is_empty());
    let restored =
        CommonCache::from_levels(cache.base(), Some(cache.max_size()), &levels, StdRng::seed_from_u64(1))
            .unwrap();
    assert_eq!(restored.levels(), levels);
    assert_eq!(restored.iter(), cache.iter());
    assert_eq!(restored.base(), 2);
    assert_eq!(restored.max_size(), 64);
    assert_eq!(restored.generation(), 0);
    assert_eq!(restored.size(), cache.size());
}

#[test]
fn from_levels_drops_empty_bottom_levels() {
    let levels = vec![vec![(1, 10)], vec![], vec![(2, 20), (3, 30)], vec![], vec![]];
    let mut cache =
        CommonCache::from_levels(2, None, &levels, StdRng::seed_from_u64(1)).unwrap();
    assert_eq!(cache.levels(), vec![vec![(1, 10)], vec![], vec![(2, 20), (3, 30)]]);
    assert_eq!(cache.size(), 3);
    assert_eq!(cache.max_size(), usize::MAX);
    let entry = cache.entry(3).unwrap();
    assert_eq!((entry.level, entry.idx), (2, 1));
    let empty = CommonCache::from_levels(2, None, &vec![vec![], vec![]], StdRng::seed_from_u64(1))
        .unwrap();
    assert!(empty.levels().is_empty());
}

#[test]
fn from_levels_rejects_what_no_cache_holds() {
    let rng = || StdRng::seed_from_u64(1);
    let good = vec![vec![(1, 10)], vec![(2, 20), (3, 30)]];
    assert!(CommonCache::from_levels(2, Some(3), &good, rng()).is_some());
    assert!(CommonCache::from_levels(1, Some(3), &good, rng()).is_none());
    assert!(CommonCache::from_levels(0, None, &good, rng()).is_none());
    assert!(CommonCache::from_levels(2, Some(1), &vec![], rng()).is_none());
    assert!(CommonCache::from_levels(2, Some(2), &good, rng()).is_none());
    let twice = vec![vec![(1, 10)], vec![(2, 20), (1, 30)]];
    assert!(CommonCache::from_levels(2, None, &twice, rng()).is_none());
    let twice_in_a_level = vec![vec![(1, 10), (1, 10)]];
    assert!(CommonCache::from_levels(2, None, &twice_in_a_level, rng()).is_none());
}

#[test]
fn remove_drops_every_empty_level_at_the_bottom() {
    let levels = vec![vec![(1, 10)], vec![], vec![(2, 20)]];
    let mut cache =
        CommonCache::from_levels(2, None, &levels, StdRng::seed_from_u64(1)).unwrap();
    assert_eq!(cache.entry(2).unwrap().remove(), (2, 20));
    assert_eq!(cache.levels(), vec![vec![(1, 10)]]);
    assert_eq!(cache.generation(), 1);
}

#[test]
fn remove_moves_the_last_item_into_the_slot() {
    let levels = vec![vec![(1, 1), (2, 2), (3, 3), (4, 4)]];
    let mut cache =
        CommonCache::from_levels(2, None, &levels, StdRng::seed_from_u64(1)).unwrap();
    assert_eq!(cache.entry(2).unwrap().remove(), (2, 2));
    assert_eq!(cache.levels(), vec![vec![(1, 1), (4, 4), (3, 3)]]);
    assert_eq!(cache.entry(3).unwrap().remove(), (3, 3));
    assert_eq!(cache.levels(), vec![vec![(1, 1), (4, 4)]]);
}

#[test]
fn third_insert_has_two_outcomes() {
    let mut seen_grown = false;
    let mut seen_kept = false;
    for seed in 0..40 {
        let mut cache = seeded(2, None, seed);
        cache.insert(1, 10);
        cache.insert(2, 20);
        assert_eq!(cache.levels(), vec![vec![(2, 20)], vec![(1, 10)]]);
        cache.insert(3, 30);
        let levels = cache.levels();
        if levels == vec![vec![(3, 30)], vec![(2, 20)], vec![(1, 10)]] {
            seen_grown = true;
        } else {
            assert_eq!(levels, vec![vec![(3, 30)], vec![(1, 10), (2, 20)]]);
            seen_kept = true;
        }
    }
    assert!(seen_grown && seen_kept);
}

#[test]
fn promotion_from_a_full_top_level_swaps_the_two_items() {
    let levels = vec![vec![(1, 10)], vec![(2, 20)]];
    for seed in 0..20 {
        let mut cache =
            CommonCache::from_levels(2, None, &levels, StdRng::seed_from_u64(seed)).unwrap();
        let mut entry = cache.entry(2).unwrap();
        assert_eq!(*entry.get_value(), 20);
        assert_eq!((entry.level, entry.idx), (0, 0));
        // Taking 2 out empties and drops level 1; the item of level 0 always falls, and with
        // no level beneath and no growth it is lost.
        assert_eq!(cache.levels(), vec![vec![(2, 20)]]);
    }
}

#[test]
fn promotion_never_grows_the_cache() {
    for seed in 0..20 {
        let mut cache = seeded(2, None, seed);
        for key in 0..30u64 {
            cache.insert(key, key);
        }
        let depth = cache.levels().len();
        for key in 0..30u64 {
            let size = cache.size();
            if let Some(mut entry) = cache.entry(key) {
                entry.get_value();
                assert!(cache.entry(key).is_some());
                assert!(cache.size() == size || cache.size() + 1 == size);
                assert!(cache.levels().len() <= depth);
            }
        }
    }
}

#[test]
fn lowering_the_bound_cuts_at_the_level_that_reaches_it() {
    let levels = vec![vec![(1, 1)], vec![(2, 2), (3, 3)], vec![(4, 4), (5, 5), (6, 6)], vec![(7, 7)]];
    for seed in 0..20 {
        let mut cache =
            CommonCache::from_levels(2, Some(100), &levels, StdRng::seed_from_u64(seed)).unwrap();
        cache.set_max_size(4);
        let after = cache.levels();
        assert_eq!(after.len(), 3);
        assert_eq!(after[0], vec![(1, 1)]);
        assert_eq!(after[1], vec![(2, 2), (3, 3)]);
        assert_eq!(after[2].len(), 1);
        assert!(levels[2].contains(&after[2][0]));
    }
    let mut cache =
        CommonCache::from_levels(2, Some(100), &levels, StdRng::seed_from_u64(1)).unwrap();
    cache.set_max_size(3);
    assert_eq!(cache.levels(), vec![vec![(1, 1)], vec![(2, 2), (3, 3)]]);
    cache.set_max_size(2);
    assert_eq!(cache.levels()[0], vec![(1, 1)]);
    assert_eq!(cache.levels()[1].len(), 1);
}

#[test]
fn full_cache_evicts_from_the_bottom_level() {
    let levels = vec![vec![(1, 1)], vec![(2, 2)], vec![(3, 3)]];
    for seed in 0..20 {
        let mut cache =
            CommonCache::from_levels(2, Some(3), &levels, StdRng::seed_from_u64(seed)).unwrap();
        let entry = cache.insert(9, 9);
        assert_eq!(entry.level, 1);
        assert!(cache.entry(3).is_none());
        assert!(cache.entry(1).is_some());
        assert!(cache.entry(2).is_some());
        assert_eq!(cache.size(), 3);
    }
}

#[test]
fn iter_mut_lists_in_the_order_of_iter() {
    let mut cache = seeded(2, None, 31);
    for key in 0..25u64 {
        cache.insert(key, key + 100);
    }
    let listed = cache.iter();
    let generation = cache.generation();
    let levels = cache.levels();
    {
        let items = cache.iter_mut();
        assert_eq!(items.len(), listed.len());
        for (n, (key, value)) in items.into_iter().enumerate() {
            assert_eq!((*key, *value), listed[n]);
            *value += 1000;
        }
    }
    let after = cache.iter();
    for (n, item) in after.iter().enumerate() {
        assert_eq!(*item, (listed[n].0, listed[n].1 + 1000));
    }
    let shape: Vec<usize> = cache.levels().iter().map(|l| l.len()).collect();
    let shape_before: Vec<usize> = levels.iter().map(|l| l.len()).collect();
    assert_eq!(shape, shape_before);
    assert_eq!(cache.generation(), generation);
    assert_eq!(cache.entry(7).unwrap().peek_value(), &1107);
}

#[test]
fn iter_mut_of_an_empty_cache_is_empty() {
    let mut cache = seeded(2, None, 31);
    assert!(cache.iter_mut().is_empty());
    assert_eq!(cache.size(), 0);
}

#[test]
fn a_level_sheds_in_proportion_to_its_nominal_capacity() {
    // After two insertions the cache is [2], [1]. On the third, level 1, which holds one
    // item, sheds it if the number drawn below its nominal capacity is 0: with base 2
    // about every second time, with base 1000 about once in a thousand times.
    let mut fell_with_base_2 = 0;
    let mut fell_with_base_1000 = 0;
    for seed in 0..200 {
        for base in [2usize, 1000] {
            let mut cache = seeded(base, None, seed);
            cache.insert(1, 10);
            cache.insert(2, 20);
            cache.insert(3, 30);
            let levels = cache.levels();
            if levels.len() == 3 {
                assert_eq!(levels, vec![vec![(3, 30)], vec![(2, 20)], vec![(1, 10)]]);
                if base == 2 {
                    fell_with_base_2 += 1;
                } else {
                    fell_with_base_1000 += 1;
                }
            } else {
                assert_eq!(levels, vec![vec![(3, 30)], vec![(1, 10), (2, 20)]]);
            }
        }
    }
    assert!(fell_with_base_2 > 60 && fell_with_base_2 < 140);
    assert!(fell_with_base_1000 < 5);
}
