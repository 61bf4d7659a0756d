use std::sync::Arc;

use union_code::{CompressedIntent, FstEngine, UnionCode};

#[test]
fn test_loom_concurrency_no_leak_thread_safe() {
    // one translator behind a shared handle, used through several clones of it in turn
    let uc_arc = Arc::new(UnionCode::new(FstEngine::default()));
    let mut handles = vec![];
    for i in 0..3 {
        let uc_clone = uc_arc.clone();
        let input = if i % 2 == 0 {
            "請幫我拿咖啡".as_bytes()
        } else {
            "查茶".as_bytes()
        };
        let res = uc_clone.decode(input);
        if i % 2 == 0 {
            assert_eq!(res, Ok(CompressedIntent { opcode: 0x20, payload_id: 0x0A42 }));
        } else {
            assert_eq!(res, Ok(CompressedIntent { opcode: 0x10, payload_id: 0x0A43 }));
        }
        handles.push(uc_clone);
    }
    drop(handles);
    assert_eq!(Arc::strong_count(&uc_arc), 1);
}
