use vstd::prelude::*;

verus! {

/// Where the simulated objects come from.
#[derive(Debug, Clone, Copy, PartialEq, Eq, Structural)]
pub enum DataSource {
    /// Synthetic objects generated from the configuration.
    Generate,
    /// Objects read from a CSV catalog.
    ImportCSV,
}

impl Default for DataSource {
    fn default() -> (d: Self)
        ensures
            d == DataSource::Generate,
    {
        DataSource::Generate
    }
}

/// Why a configuration is refused. The checks run in the order of the
/// variants, and the first that fails is reported.
#[derive(Debug, Clone, Copy, PartialEq, Eq, Structural)]
pub enum ConfigError {
    /// The object count is outside 1 to 100,000.
    ObjectCount(usize),
    /// The sensor count is outside 1 to 100.
    SensorCount(usize),
    /// The time step is outside 0.1 to 1000 seconds.
    TimeStep,
    /// The step count is outside 1 to 10,000.
    Steps(usize),
    /// More sensors (first) than objects (second).
    SensorsExceedObjects(usize, usize),
    /// The collision threshold exceeds 1000 km.
    CollisionThreshold,
    /// CSV import was chosen but no file was selected.
    MissingCsvPath,
}

/// The first failing check of a configuration, if any. The two
/// floating-point range checks enter as their outcomes `dt_in_range` and
/// `threshold_in_range`.
pub open spec fn first_config_error(
    n_objects: usize,
    n_sensors: usize,
    dt_in_range: bool,
    steps: usize,
    threshold_in_range: bool,
    data_source: DataSource,
    has_csv_path: bool,
) -> Option<ConfigError> {
    if n_objects < 1 || n_objects > 100_000 {
        Some(ConfigError::ObjectCount(n_objects))
    } else if n_sensors < 1 || n_sensors > 100 {
        Some(ConfigError::SensorCount(n_sensors))
    } else if !dt_in_range {
        Some(ConfigError::TimeStep)
    } else if steps < 1 || steps > 10_000 {
        Some(ConfigError::Steps(steps))
    } else if n_sensors > n_objects {
        Some(ConfigError::SensorsExceedObjects(n_sensors, n_objects))
    } else if !threshold_in_range {
        Some(ConfigError::CollisionThreshold)
    } else if data_source == DataSource::ImportCSV && !has_csv_path {
        Some(ConfigError::MissingCsvPath)
    } else {
        None
    }
}

/// Checks a configuration before launch: 1 to 100,000 objects, 1 to 100
/// sensors, a time step in range, 1 to 10,000 steps, no more sensors than
/// objects, a collision threshold in range, and a selected file when
/// importing from CSV. Reports the first check that fails.
pub fn check_config(
    n_objects: usize,
    n_sensors: usize,
    dt_in_range: bool,
    steps: usize,
    threshold_in_range: bool,
    data_source: DataSource,
    has_csv_path: bool,
) -> (r: Result<(), ConfigError>)
    ensures
        r is Ok <==> (1 <= n_objects <= 100_000 && 1 <= n_sensors <= 100 && dt_in_range && 1 <= steps
            <= 10_000 && n_sensors <= n_objects && threshold_in_range && !(data_source
            == DataSource::ImportCSV && !has_csv_path)),
        r is Ok <==> first_config_error(
            n_objects,
            n_sensors,
            dt_in_range,
            steps,
            threshold_in_range,
            data_source,
            has_csv_path,
        ) is None,
        r matches Err(e) ==> first_config_error(
            n_objects,
            n_sensors,
            dt_in_range,
            steps,
            threshold_in_range,
            data_source,
            has_csv_path,
        ) == Some(e),
{
    if n_objects < 1 || n_objects > 100_000 {
        return Err(ConfigError::ObjectCount(n_objects));
    }
    if n_sensors < 1 || n_sensors > 100 {
        return Err(ConfigError::SensorCount(n_sensors));
    }
    if !dt_in_range {
        return Err(ConfigError::TimeStep);
    }
    if steps < 1 || steps > 10_000 {
        return Err(ConfigError::Steps(steps));
    }
    if n_sensors > n_objects {
        return Err(ConfigError::SensorsExceedObjects(n_sensors, n_objects));
    }
    if !threshold_in_range {
        return Err(ConfigError::CollisionThreshold);
    }
    if data_source == DataSource::ImportCSV && !has_csv_path {
        return Err(ConfigError::MissingCsvPath);
    }
    Ok(())
}

/// Named configuration scenarios.
#[derive(Debug, Clone, Copy, PartialEq, Eq, Structural)]
pub enum Preset {
    Default,
    StressTest,
    HighFidelity,
    Benchmark,
}

} // verus!
