use lib::sync::{irqs_disabled, CriticalSection, Mutex, OnceLock};

#[test]
fn clearing_sie_keeps_other_bits() {
    assert_eq!(irqs_disabled(0b1010_0010), 0b1010_0000);
    assert_eq!(irqs_disabled(0b1000), 0b1000);
}

#[test]
fn nested_sections_restore_in_order() {
    let enabled = 0x8000_0000_0000_0022u64;
    let outer = CriticalSection::new(enabled);
    let inner = CriticalSection::new(irqs_disabled(enabled));
    // Leaving the inner section keeps interrupts off.
    assert_eq!(inner.restore() & 0b10, 0);
    // Leaving the outer one brings the state back.
    assert_eq!(outer.restore(), enabled);
}

#[test]
fn lock_and_unlock() {
    let mut m = Mutex::new(5u32);
    assert!(!m.is_locked());
    let g = m.lock();
    assert!(m.is_locked());
    *m.as_mut() += 1;
    assert_eq!(*m.as_ref(), 6);
    assert_eq!(m.unlock(g), None);
    assert!(!m.is_locked());
}

#[test]
fn try_lock_fails_on_a_held_lock() {
    let mut m = Mutex::new_locked(1u8);
    assert!(m.is_locked());
    assert!(m.try_lock().is_none());
    assert!(m.is_locked());
    m.force_unlock();
    let g = m.try_lock().unwrap();
    assert!(m.is_locked());
    m.unlock(g);
}

#[test]
fn irqsave_lock_hands_back_the_saved_state() {
    let mut m = Mutex::new(0u8);
    let g = m.lock_irqsave(CriticalSection::new(0x22));
    assert_eq!(m.unlock(g), Some(0x22));
    let g = m.try_lock_irqsave(CriticalSection::new(0x2)).unwrap();
    assert!(m.try_lock_irqsave(CriticalSection::new(0x0)).is_none());
    assert_eq!(m.unlock(g), Some(0x2));
}

#[test]
fn once_lock_is_written_once() {
    let mut cell: OnceLock<u32> = OnceLock::new();
    assert!(!cell.initialized());
    assert_eq!(cell.get(), None);
    assert_eq!(cell.set(7), Ok(()));
    assert_eq!(cell.set(9), Err(9));
    assert_eq!(cell.get(), Some(&7));
    *cell.get_mut().unwrap() = 8;
    assert_eq!(cell.get(), Some(&8));
    assert_eq!(cell.take(), Some(8));
    assert!(!cell.initialized());
    assert_eq!(cell.take(), None);
}

#[test]
fn get_or_init_runs_only_on_an_empty_cell() {
    let mut cell: OnceLock<u32> = OnceLock::new();
    assert_eq!(*cell.get_or_init(|| 3), 3);
    assert_eq!(*cell.get_or_init(|| 4), 3);
    let full = OnceLock::new_with(11u32);
    assert_eq!(full.get(), Some(&11));
}
