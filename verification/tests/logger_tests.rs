use gpkg_render::logger::{Logger, VerbosityLevel};

#[test]
fn test_verbosity_level_ordering() {
    assert!((VerbosityLevel::Quiet as i32) < (VerbosityLevel::Normal as i32));
    assert!((VerbosityLevel::Normal as i32) < (VerbosityLevel::Verbose as i32));
}

#[test]
fn test_logger_is_verbose() {
    let quiet_logger = Logger::new(VerbosityLevel::Quiet, false, None);
    let normal_logger = Logger::new(VerbosityLevel::Normal, false, None);
    let verbose_logger = Logger::new(VerbosityLevel::Verbose, false, None);

    assert!(!quiet_logger.is_verbose());
    assert!(!normal_logger.is_verbose());
    assert!(verbose_logger.is_verbose());
}

#[test]
fn test_logger_is_quiet() {
    let quiet_logger = Logger::new(VerbosityLevel::Quiet, false, None);
    let normal_logger = Logger::new(VerbosityLevel::Normal, false, None);
    let verbose_logger = Logger::new(VerbosityLevel::Verbose, false, None);

    assert!(quiet_logger.is_quiet());
    assert!(!normal_logger.is_quiet());
    assert!(!verbose_logger.is_quiet());
}

#[test]
fn test_logger_level() {
    let quiet_logger = Logger::new(VerbosityLevel::Quiet, false, None);
    assert_eq!(quiet_logger.level(), VerbosityLevel::Quiet);
}

#[test]
fn test_logger_free_functions() {
    let quiet = Logger::new(VerbosityLevel::Quiet, false, None);
    assert!(gpkg_render::logger::is_quiet(&quiet));
    assert!(!gpkg_render::logger::is_verbose(&quiet));
    // The printing paths run without a start time set.
    gpkg_render::logger::debug(&quiet, "nothing in quiet mode");
    gpkg_render::logger::info(&quiet, "nothing in quiet mode");
    gpkg_render::logger::warn(&quiet, "nothing in quiet mode");
}
