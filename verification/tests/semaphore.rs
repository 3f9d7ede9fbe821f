use dyd::semaphore::Semaphore;

#[test]
fn test_permit_released_on_drop() {
    let mut semaphore = Semaphore::new(1);

    let permit = semaphore.acquire();
    assert_eq!(semaphore.available_permits(), 0);
    semaphore.release(permit);

    assert_eq!(semaphore.available_permits(), 1);
}

#[test]
fn test_semaphore_limits_concurrency() {
    let mut semaphore = Semaphore::new(2);
    let mut held = Vec::new();
    let mut max_active: usize = 0;

    for _ in 0..10 {
        if let Some(permit) = semaphore.try_acquire() {
            held.push(permit);
            if held.len() > max_active {
                max_active = held.len();
            }
        }
    }

    assert!(max_active > 0);
    assert!(max_active <= 2);

    for permit in held {
        semaphore.release(permit);
    }
    assert_eq!(semaphore.available_permits(), 2);
}

#[test]
fn try_acquire_exhausts_and_recovers() {
    let mut semaphore = Semaphore::new(1);
    let p = semaphore.try_acquire();
    assert!(p.is_some());
    assert!(semaphore.try_acquire().is_none());
    semaphore.release(p.unwrap());
    assert!(semaphore.try_acquire().is_some());
}
