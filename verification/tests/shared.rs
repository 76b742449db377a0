use std::sync::{Arc, Mutex};
use substring_count::File;

#[test]
fn five_holders_of_one_lock_count_once_each() {
    let file_arc = Arc::new(Mutex::new(File::new("hello world hello there hello")));
    let holders: Vec<_> = (0..5).map(|_| Arc::clone(&file_arc)).collect();

    for holder in holders.iter().rev() {
        let mut file = holder.lock().unwrap();
        let hello_count = file.parse_and_count("hello");
        assert_eq!(hello_count, 3);
    }

    let file = file_arc.lock().unwrap();
    let hello_count = file.get_count("hello");
    assert_eq!(hello_count, Some(&15));
}
