use phoenixdb::page_pool::PagePool;

#[test]
fn acquire_returns_zeroed_buffer() {
    let mut pool = PagePool::new();
    let buf = pool.acquire();
    assert!(buf.iter().all(|&b| b == 0));
}

#[test]
fn release_then_acquire_reuses_buffer() {
    let mut pool = PagePool::new();
    let buf1 = pool.acquire();
    let ptr1 = buf1.as_ptr();
    pool.release(buf1);
    let buf2 = pool.acquire();
    assert_eq!(ptr1, buf2.as_ptr());
}

#[test]
fn pool_respects_max_capacity() {
    let mut pool = PagePool::new();
    let mut bufs = Vec::new();
    for _ in 0..2048 {
        let buf = pool.acquire();
        let ptr = buf.as_ptr();
        bufs.push(buf);
        if bufs.len() == 2048 {
            for b in bufs.drain(..) {
                pool.release(b);
            }
            let kept = pool.acquire();
            assert_eq!(kept.as_ptr(), ptr);
        }
    }
}
