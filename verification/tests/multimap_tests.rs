//! The price-level map keeps keys sorted and preserves insertion order
//! within a key — the two properties the book sides rely on.

use btreemultimap::BTreeMultiMap;
use rand::RngExt;

#[test]
fn test_btree_multimap() {
    let mut multimap: BTreeMultiMap<i32, i32> = BTreeMultiMap::new();
    let mut rng = rand::rng();

    // Populate the map.
    let mut i: i32 = 1;

    while i < 100 {
        multimap.insert(rng.random_range(0..4), i);
        i = i + 1;
    }

    println!("len: {}", multimap.len());

    let mut last_key: i32 = -1;

    for key in multimap.keys() {
        // Check keys are sorted in ascending order.
        let this_key: i32 = key.clone();
        assert!(this_key > last_key);
        last_key = this_key;

        // Check order of multimap entries.
        let entries = multimap.get_vec(key).unwrap();
        let mut last_entry: i32 = -1;

        for entry in entries {
            let this_entry: i32 = entry.clone();
            assert!(this_entry > last_entry);
            println!("key: {}, this_entry: {}, last_entry: {}", this_key, this_entry, last_entry);

            last_entry = this_entry;
        }
    }
}
