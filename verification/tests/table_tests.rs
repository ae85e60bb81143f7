use trellis::iters::{iter_runs, iter_runs_by_key};
use trellis::ramp_table::{group_by_key, RampTable, RampTableBuilder};
use trellis::vec_option::{find_next_run, VecOption};
use trellis::{
    add_degree, find_degree, find_referenced_edges, find_sinks, find_sources,
    traverse_depth_first_preorder,
};

#[test]
fn add_degree_mut_test() {
    let edges: Vec<u32> = vec![3, 1, 0, 0, 2, 0, 1];
    let mut degree = vec![0; 10];
    add_degree(&edges, &mut degree);
    assert_eq!(degree, [3, 2, 1, 1, 0, 0, 0, 0, 0, 0]);
}

#[test]
fn lib_add_degree_mut_test() {
    let edges: Vec<u32> = vec![3, 1, 0, 0, 2, 0, 1];
    let mut degree = vec![0; 10];
    add_degree(&edges, &mut degree);
    assert_eq!(degree, [3, 2, 1, 1, 0, 0, 0, 0, 0, 0]);
}

#[test]
fn it_works() {
    assert_eq!(2 + 2, 4);
}

#[test]
fn lib_it_works() {
    assert_eq!(2 + 2, 4);
}

#[test]
fn basic_test() {
    let mut v: VecOption<i32> = VecOption::new();
    v.push(Some(333));
    assert_eq!(v.get_copy(0), Some(333));
}

#[test]
fn add_degree_saturates() {
    let edges: Vec<u32> = vec![1, 0, 1];
    let mut degree: Vec<u16> = vec![7, 65534];
    assert!(add_degree(&edges, &mut degree));
    assert_eq!(degree, [8, 65535]);
    let mut degree: Vec<u16> = vec![7, 65533];
    assert!(!add_degree(&edges, &mut degree));
    assert_eq!(degree, [8, 65535]);
}

#[test]
fn degrees_and_references() {
    let edges: Vec<u32> = vec![3, 1, 0, 0, 2, 0, 1];
    assert_eq!(find_degree(&edges, 5), vec![3, 2, 1, 1, 0]);
    assert_eq!(find_referenced_edges(&edges, 5), vec![true, true, true, true, false]);
    assert_eq!(find_referenced_edges(&[], 2), vec![false, false]);
}

#[test]
fn sources_and_sinks() {
    // 0 -> 1, 0 -> 2, 1 -> 2, 3 alone
    let mut table: RampTable<u32> = RampTable::new();
    table.push_value(1);
    table.push_value(2);
    table.finish_key();
    table.push_value(2);
    table.finish_key();
    table.finish_key();
    table.finish_key();
    assert_eq!(find_sources(&table), vec![true, false, false, true]);
    assert_eq!(find_sinks(&table), vec![false, false, true, true]);
}

#[test]
fn ramp_table_entries() {
    let mut rt = RampTable::new();
    assert!(rt.is_empty());
    rt.push_value("foo");
    rt.push_value("bar");
    assert_eq!(rt.finish_key(), 0);
    assert_eq!(rt.entry_values(0), &["foo", "bar"]);
    assert_eq!(rt.finish_key(), 1);
    rt.push_value("alpha");
    rt.push_value("bravo");
    assert_eq!(rt.finish_key(), 2);
    let entries = rt.iter();
    assert_eq!(entries.len(), 3);
    assert_eq!(entries[0], &["foo", "bar"][..]);
    assert_eq!(entries[1], &[][..] as &[&str]);
    assert_eq!(entries[2], &["alpha", "bravo"][..]);
    assert_eq!(rt.len(), 3);
    assert_eq!(rt.num_keys(), 3);
    assert_eq!(rt.num_values(), 4);
    assert!(!rt.is_empty());
    assert_eq!(rt.entry_values_range(2), 2..4);
    assert_eq!(rt.entry_values_range(1), 2..2);
    assert_eq!(rt.all_values(), &["foo", "bar", "alpha", "bravo"]);
    rt.clear();
    assert!(rt.is_empty());
    assert_eq!(rt.num_values(), 0);
    assert_eq!(rt.index, vec![0]);
}

#[test]
fn ramp_table_values_can_change() {
    let mut rt = RampTable::new();
    rt.push_value("foo");
    rt.push_value("bar");
    rt.finish_key();
    rt.push_value("baz");
    rt.finish_key();
    rt.entry_values_mut(0)[1] = "BAR";
    assert_eq!(rt.entry_values(0), &["foo", "BAR"][..]);
    rt.entry_values_mut(1)[0] = "BAZ";
    rt.all_values_mut()[0] = "FOO";
    assert_eq!(rt.all_values(), &["FOO", "BAR", "BAZ"]);
    assert_eq!(rt.index, vec![0, 2, 3]);
}

#[test]
fn ramp_table_pairs() {
    let mut rt: RampTable<char> = RampTable::with_capacity(4, 4);
    rt.push_value('a');
    rt.finish_key();
    rt.finish_key();
    rt.push_value('b');
    rt.push_value('c');
    rt.finish_key();
    rt.finish_key();
    rt.push_value('z');
    let expected = vec![(0, &'a'), (2, &'b'), (2, &'c')];
    assert_eq!(rt.iter_pairs(), expected);
    assert_eq!(rt.iter_pairs_manual(), expected);
    let empty: RampTable<char> = RampTable::new();
    assert!(empty.iter_pairs().is_empty());
    assert!(empty.iter_pairs_manual().is_empty());
}

#[test]
fn ramp_table_push_entries() {
    let mut rt: RampTable<u32> = RampTable::new();
    rt.push_entry_copy(&[1, 2]);
    rt.push_value(9);
    rt.push_entry_clone(&[3]);
    rt.push_entry_extend(vec![4, 5, 6]);
    rt.push_entry_copy(&[]);
    assert_eq!(rt.index, vec![0, 2, 4, 7, 7]);
    assert_eq!(rt.values, vec![1, 2, 9, 3, 4, 5, 6]);
    assert_eq!(rt.entry_values(1), &[9, 3]);
}

#[test]
fn builder_sorts_by_key_and_keeps_order() {
    let mut b: RampTableBuilder<&str> = RampTableBuilder::new();
    b.push(3, "d1");
    b.push(0, "a1");
    b.push(3, "d2");
    b.push(1, "b1");
    b.push(0, "a2");
    assert_eq!(b.len(), 5);
    let table = b.finish();
    assert_eq!(table.num_keys(), 4);
    assert_eq!(table.entry_values(0), &["a1", "a2"]);
    assert_eq!(table.entry_values(1), &["b1"]);
    assert_eq!(table.entry_values(2), &[] as &[&str]);
    assert_eq!(table.entry_values(3), &["d1", "d2"]);
    assert_eq!(table.index, vec![0, 2, 3, 3, 5]);
}

#[test]
fn empty_builder_gives_empty_table() {
    let b: RampTableBuilder<u8> = RampTableBuilder::with_capacity(8);
    let table = b.finish();
    assert_eq!(table.num_keys(), 0);
    assert_eq!(table.num_values(), 0);
    assert_eq!(table.index, vec![0]);
}

#[test]
fn group_by_key_drops_high_keys() {
    let keys: Vec<u32> = vec![2, 0, 7, 2, 1, 0xffff_ffff, 2];
    let values: Vec<char> = vec!['a', 'b', 'c', 'd', 'e', 'f', 'g'];
    let table = group_by_key(&keys, values, 3);
    assert_eq!(table.index, vec![0, 1, 2, 5]);
    assert_eq!(table.values, vec!['b', 'e', 'a', 'd', 'g']);
}

#[test]
fn vec_option_behaves_like_vec_of_options() {
    let mut v = VecOption::<i32>::new_repeat_none(3);
    assert_eq!(v.len(), 3);
    assert!(!v.is_empty());
    v.push(Some(42));
    v.push_none();
    v.push_some(7);
    assert_eq!(v.len(), 6);
    assert_eq!(v.get_copy(0), None);
    assert_eq!(v.get_copy(3), Some(42));
    assert_eq!(v.get_ref(5), Some(&7));
    assert_eq!(v.replace(0, Some(1)), None);
    assert_eq!(v.replace(0, Some(2)), Some(1));
    assert_eq!(v.replace_none(3), Some(42));
    assert_eq!(v.replace_some(4, 5), None);
    v.set(1, Some(11));
    v.set_none(0);
    v.set_some(2, 22);
    // None, 11, 22, None, 5, 7
    assert_eq!(v.iter_some_index(), vec![(1, &11), (2, &22), (4, &5), (5, &7)]);
    if let Some(x) = v.get_mut(1) {
        *x = 111;
    }
    assert!(v.get_mut(0).is_none());
    assert_eq!(v.pop(), Some(Some(7)));
    v.push_none();
    v.push_none();
    assert_eq!(v.pop_some(), Some(5));
    assert_eq!(v.len(), 4);
    assert_eq!(v.pop(), Some(None));
    assert_eq!(v.some_into_vec(), vec![111, 22]);
}

#[test]
fn vec_option_pop_on_empty() {
    let mut v: VecOption<u8> = VecOption::with_capacity(4);
    assert!(v.is_empty());
    assert_eq!(v.pop(), None);
    assert_eq!(v.pop_some(), None);
    v.reserve(10);
    v.push_none();
    assert_eq!(v.pop_some(), None);
    assert!(v.is_empty());
}

#[test]
fn vec_option_compact_keeps_order() {
    let mut v = VecOption::new_repeat_none(5);
    v.set_some(1, 'A');
    v.set_some(4, 'B');
    assert_eq!(v.compact(), 2);
    assert_eq!(v.len(), 2);
    assert_eq!(v.get_copy(0), Some('A'));
    assert_eq!(v.get_copy(1), Some('B'));
    assert_eq!(v.compact(), 2);

    let mut v = VecOption::<i32>::new();
    v.push(None);
    v.push(Some(100));
    v.push(None);
    v.push(Some(200));
    v.push(None);
    v.push(None);
    v.push(Some(300));
    assert_eq!(v.some_into_vec(), vec![100, 200, 300]);
}

#[test]
fn vec_option_from_vec() {
    let mut v = VecOption::from_vec(vec![100, 200, 300]);
    assert_eq!(v.len(), 3);
    assert_eq!(v.get_copy(0), Some(100));
    assert_eq!(v.get_copy(1), Some(200));
    assert_eq!(v.get_copy(2), Some(300));
    assert_eq!(v.pop(), Some(Some(300)));
    assert_eq!(v.compact(), 2);
}

#[test]
fn vec_option_runs() {
    let mut v = VecOption::<i32>::new();
    v.push(Some(1));
    v.push(Some(2));
    v.push(None);
    v.push(Some(3));
    v.push(Some(4));
    v.push(Some(5));
    v.push(None);
    v.push(None);
    assert_eq!(v.iter_runs(), vec![0..2, 3..6]);
    assert_eq!(find_next_run(&v, 0), 0..2);
    assert_eq!(find_next_run(&v, 1), 1..2);
    assert_eq!(find_next_run(&v, 2), 3..6);
    assert_eq!(find_next_run(&v, 6), 8..8);
    let empty = VecOption::<i32>::new();
    assert!(empty.iter_runs().is_empty());
}

#[test]
fn ramp_table_entries_can_change_one_by_one() {
    let mut rt = RampTable::new();
    rt.push_value("foo");
    rt.push_value("bar");
    rt.finish_key(); // 0
    rt.finish_key(); // 1
    rt.push_value("baz");
    rt.finish_key(); // 2
    rt.push_value("pending");
    {
        let mut entries = rt.iter_mut();
        assert_eq!(entries.len(), 3);
        assert_eq!(entries[0].len(), 2);
        assert_eq!(entries[1].len(), 0);
        entries[0][1] = "BAR";
        entries[2][0] = "BAZ";
    }
    assert_eq!(rt.entry_values(0), &["foo", "BAR"][..]);
    assert_eq!(rt.all_values(), &["foo", "BAR", "BAZ", "pending"]);
    assert_eq!(rt.index, vec![0, 2, 2, 3]);
}

#[test]
fn default_table_is_empty() {
    let rt: RampTable<u8> = RampTable::default();
    assert_eq!(rt.index, vec![0]);
    assert_eq!(rt.num_values(), 0);
    assert_eq!(rt, RampTable::new());
}

#[test]
fn builder_extends() {
    let mut b: RampTableBuilder<char> = RampTableBuilder::new();
    b.push(1, 'x');
    b.extend(vec![(0, 'a'), (1, 'y'), (0, 'b')]);
    assert_eq!(b.len(), 4);
    let table = b.finish();
    assert_eq!(table.index, vec![0, 2, 4]);
    assert_eq!(table.values, vec!['a', 'b', 'x', 'y']);
}

#[test]
fn vec_option_iter_and_clone() {
    let mut v: VecOption<String> = VecOption::new();
    v.push_some("a".to_string());
    v.push_none();
    v.push_some("b".to_string());
    assert_eq!(v.get_clone(0), Some("a".to_string()));
    assert_eq!(v.get_clone(1), None);
    let a = "a".to_string();
    let b = "b".to_string();
    assert_eq!(v.iter(), vec![Some(&a), None, Some(&b)]);
    // The bitmap follows the values when the list is compacted.
    assert_eq!(v.compact(), 2);
    assert_eq!(v.iter_runs(), vec![0..2]);
    assert_eq!(v.iter(), vec![Some(&a), Some(&b)]);
}

#[test]
fn preorder_walk_lists_every_path() {
    // 0 -> 1, 0 -> 2, 1 -> 3, 2 -> 3, 3 -> 4
    let mut table: RampTable<u32> = RampTable::new();
    table.push_entry_copy(&[1, 2]);
    table.push_entry_copy(&[3]);
    table.push_entry_copy(&[3]);
    table.push_entry_copy(&[4]);
    table.push_entry_copy(&[]);
    assert!(trellis::assert_graph_is_well_formed(&table));
    assert_eq!(traverse_depth_first_preorder(&table, 0), vec![1, 3, 4, 2, 3, 4]);
    assert_eq!(traverse_depth_first_preorder(&table, 2), vec![3, 4]);
    assert_eq!(traverse_depth_first_preorder(&table, 4), Vec::<u32>::new());
}

#[test]
fn runs_by_key() {
    let items: Vec<(u32, char)> = vec![(1, 'a'), (1, 'b'), (2, 'c'), (1, 'd'), (3, 'e'), (3, 'f')];
    let runs = iter_runs_by_key(&items, |item: &(u32, char)| item.0);
    assert_eq!(runs.len(), 4);
    assert_eq!(runs[0], &[(1, 'a'), (1, 'b')]);
    assert_eq!(runs[1], &[(2, 'c')]);
    assert_eq!(runs[2], &[(1, 'd')]);
    assert_eq!(runs[3], &[(3, 'e'), (3, 'f')]);
    let none: Vec<&[u8]> = iter_runs_by_key(&[], |item: &u8| *item);
    assert!(none.is_empty());
}

#[test]
fn runs_by_relation() {
    // A run goes on while the items stay within two of its first item.
    let items: Vec<i32> = vec![10, 11, 12, 13, 20, 21, 5];
    let runs = iter_runs(&items, |first: &i32, other: &i32| (other - first).abs() <= 2);
    assert_eq!(runs.len(), 4);
    assert_eq!(runs[0], &[10, 11, 12]);
    assert_eq!(runs[1], &[13]);
    assert_eq!(runs[2], &[20, 21]);
    assert_eq!(runs[3], &[5]);
}

#[test]
fn vec_option_values_can_change_in_place() {
    let mut v: VecOption<i32> = VecOption::new();
    v.push_some(1);
    v.push_none();
    v.push_some(3);
    {
        let mut entries = v.iter_mut();
        assert_eq!(entries.len(), 3);
        assert!(entries[1].is_none());
        if let Some(x) = entries[0].as_mut() {
            **x = 10;
        }
        if let Some(x) = entries[2].as_mut() {
            **x += 30;
        }
    }
    assert_eq!(v.iter(), vec![Some(&10), None, Some(&33)]);
    assert_eq!(v.some_into_vec(), vec![10, 33]);
}
