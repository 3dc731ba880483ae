use iguagile_engine::error::RelayError;
use iguagile_engine::id_generator::{MemoryIdGenerator, ID_CAPACITY};

#[test]
fn generator_allocates_and_frees() {
    let mut generator = MemoryIdGenerator::new();
    assert_eq!(generator.get_allocated_idcount(), 0);
    assert_eq!(generator.is_allocated(3), Ok(false));
    assert_eq!(generator.allocate(3), Ok(()));
    assert_eq!(generator.is_allocated(3), Ok(true));
    assert_eq!(generator.is_allocated(4), Ok(false));
    assert_eq!(generator.allocate(3), Err(RelayError::IdInUse));
    assert_eq!(generator.allocate(1023), Ok(()));
    assert_eq!(generator.allocate(0), Ok(()));
    assert_eq!(generator.get_allocated_idcount(), 3);
    assert_eq!(generator.free(3), Ok(()));
    assert_eq!(generator.free(3), Err(RelayError::IdNotInUse));
    assert_eq!(generator.is_allocated(3), Ok(false));
    assert_eq!(generator.is_allocated(1023), Ok(true));
    assert_eq!(generator.get_allocated_idcount(), 2);
    generator.free_all();
    assert_eq!(generator.get_allocated_idcount(), 0);
    assert_eq!(generator.is_allocated(0), Ok(false));
}

#[test]
fn generator_refuses_ids_out_of_range() {
    let mut generator = MemoryIdGenerator::new();
    assert_eq!(ID_CAPACITY, 1024);
    assert_eq!(generator.allocate(1024), Err(RelayError::OutOfRange));
    assert_eq!(generator.allocate(-1), Err(RelayError::OutOfRange));
    assert_eq!(generator.free(1024), Err(RelayError::OutOfRange));
    assert_eq!(generator.free(i64::MIN), Err(RelayError::OutOfRange));
    assert_eq!(generator.is_allocated(i64::MAX), Err(RelayError::OutOfRange));
    assert_eq!(generator.get_allocated_idcount(), 0);
}

#[test]
fn generator_fills_up() {
    let mut generator = MemoryIdGenerator::new();
    for id in 0..1024 {
        assert_eq!(generator.allocate(id), Ok(()));
    }
    assert_eq!(generator.get_allocated_idcount(), 1024);
    for id in 0..1024 {
        assert_eq!(generator.is_allocated(id), Ok(true));
    }
}
