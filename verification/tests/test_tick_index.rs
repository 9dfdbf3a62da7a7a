use quantaswap::tick::Tick;
use quantaswap::tick_index::TickIndex;

fn index_of(ticks: &[u32]) -> TickIndex {
    let mut index = TickIndex::new();
    for &t in ticks {
        index.insert(Tick(t));
    }
    index
}

#[test]
fn test_new_index_is_empty() {
    let index = TickIndex::new();
    assert_eq!(index.current(), None);
    assert_eq!(index.next_up(Tick(0)), None);
    assert_eq!(index.next_down(Tick(TickIndex::KEY_FLAG - 1)), None);
}

#[test]
fn test_first_insert_becomes_current() {
    let mut index = TickIndex::new();
    index.insert(Tick(27000));
    assert_eq!(index.current(), Some(Tick(27000)));
    index.insert(Tick(28000));
    assert_eq!(index.current(), Some(Tick(27000)));
}

#[test]
fn test_next_up_and_down_across_blocks() {
    let ticks = [5, 63, 64, 4095, 4096, 27000, 54000, 262143];
    let index = index_of(&ticks);
    for w in ticks.windows(2) {
        assert_eq!(index.next_up(Tick(w[0])), Some(Tick(w[1])));
        assert_eq!(index.next_down(Tick(w[1])), Some(Tick(w[0])));
    }
    assert_eq!(index.next_up(Tick(262143)), None);
    assert_eq!(index.next_down(Tick(5)), None);
    assert_eq!(index.next_up(Tick(0)), Some(Tick(5)));
    assert_eq!(index.next_down(Tick(30000)), Some(Tick(27000)));
    assert_eq!(index.next_up(Tick(27001)), Some(Tick(54000)));
}

#[test]
fn test_next_down_then_up_returns() {
    let index = index_of(&[100, 2000, 70000]);
    let down = index.next_down(Tick(2000)).unwrap();
    assert_eq!(down, Tick(100));
    assert_eq!(index.next_up(down), Some(Tick(2000)));
    let up = index.next_up(Tick(2000)).unwrap();
    assert_eq!(up, Tick(70000));
    assert_eq!(index.next_down(up), Some(Tick(2000)));
}

#[test]
fn test_insert_then_remove_restores() {
    let mut index = index_of(&[100, 2000]);
    index.insert(Tick(1000));
    assert_eq!(index.next_up(Tick(100)), Some(Tick(1000)));
    index.remove(Tick(1000));
    assert_eq!(index.next_up(Tick(100)), Some(Tick(2000)));
    assert_eq!(index.next_down(Tick(2000)), Some(Tick(100)));
    assert_eq!(index.current(), Some(Tick(100)));
}

#[test]
fn test_move_up_and_down() {
    let mut index = index_of(&[10, 20, 30]);
    assert_eq!(index.current(), Some(Tick(10)));
    assert_eq!(index.move_down(), None);
    assert_eq!(index.current(), Some(Tick(10)));
    assert_eq!(index.move_up(), Some(Tick(20)));
    assert_eq!(index.move_up(), Some(Tick(30)));
    assert_eq!(index.move_up(), None);
    assert_eq!(index.current(), Some(Tick(30)));
    assert_eq!(index.move_down(), Some(Tick(20)));
    assert_eq!(index.current(), Some(Tick(20)));
}

#[test]
fn test_remove_current_moves_up_within_block() {
    let mut index = index_of(&[10, 20, 30]);
    index.move_up();
    assert_eq!(index.current(), Some(Tick(20)));
    index.remove(Tick(20));
    assert_eq!(index.current(), Some(Tick(30)));
}

#[test]
fn test_remove_last_tick_empties() {
    let mut index = index_of(&[42]);
    index.remove(Tick(42));
    assert_eq!(index.current(), None);
    assert_eq!(index.next_up(Tick(0)), None);
}
