use maze_turns::numbers::convert_numbers;
use num_bigint::BigInt;

#[test]
fn numbers_test_example_from_task_description() {
    let input = vec![
        "000000000".to_string(),
        "111101110".to_string(),
        "010101010".to_string(),
        "010111010".to_string(),
        "010000010".to_string(),
        "011110010".to_string(),
        "010011111".to_string(),
        "000000000".to_string(),
    ];

    let result = convert_numbers(input);

    assert_eq!(
        result,
        vec![
            Ok(BigInt::from(0)),
            Ok(BigInt::from(494)),
            Ok(BigInt::from(170)),
            Ok(BigInt::from(186)),
            Ok(BigInt::from(130)),
            Ok(BigInt::from(242)),
            Ok(BigInt::from(159)),
            Ok(BigInt::from(0))
        ]
    );
}

#[test]
fn test_big_int() {
    let input = vec![
        "1100001011001101001100110101011001111110110110011100101111011000110000001000011101111010110001001010110111110101010110100001000101001001101000100011001000111100111001100001101101010100101000111011101101011011100000100110000001111000001001101100001101000000001110101001011000011111000000111001001000000000000100011110001011110001001001010000111000100100001001100001011000010011011110010001010001000000010001010100011100101100000000011011100100001100011110011000111000010100011010000011110000100111100101001000110001101110101100100111000110100110010111101011011111100001111000111100001011001111100101010010010000000001110010101100010001100010101000010010111000000010100010001110110100010000010011000111100111000010011001100100100010011011111001011111001010110010000010110000000001001111101010101001010110101011001100010011011110111001011111011001000011011011101111111011100000101110001000110001011101101000000101000011100011100111010101100000011100011110001101110010100000101101111000011000110010".to_string(),
    ];

    let result = convert_numbers(input);

    assert_eq!(
        result,
        vec![
            Ok(BigInt::parse_bytes(b"127399629618101871061164714369415138889690993275437627420444094492320543272307283661358790533838050723166537248941870298278768240542968408532693894495600991462888770154271773743688518108469133360749226067433284253841524878382663213020300439013395051660095465213244114983915020095532593844192661702194", 10).unwrap()),
        ]
    );
}

#[test]
fn test_invalid_input() {
    let input = vec!["113".to_string(), "ASDF".to_string()];

    let result = convert_numbers(input);

    assert!(result[0].is_err());
    assert!(result[1].is_err());
}

#[test]
fn test_numbers() {
    // the rows of the example maze read back as binary numerals, as the
    // number converter sees them after the dimension header is skipped
    let input = vec![
        "000000000".to_string(),
        "111101110".to_string(),
        "010101010".to_string(),
        "010111010".to_string(),
        "010000010".to_string(),
        "011110010".to_string(),
        "010011111".to_string(),
        "000000000".to_string(),
    ];

    let result = convert_numbers(input);

    assert_eq!(
        result,
        vec![
            Ok(BigInt::from(0)),
            Ok(BigInt::from(494)),
            Ok(BigInt::from(170)),
            Ok(BigInt::from(186)),
            Ok(BigInt::from(130)),
            Ok(BigInt::from(242)),
            Ok(BigInt::from(159)),
            Ok(BigInt::from(0))
        ]
    );
}

#[test]
fn error_message_names_the_input() {
    let result = convert_numbers(vec!["113".to_string()]);
    assert_eq!(result[0].clone().unwrap_err(), "Failed to parse: 113".to_string());
}

#[test]
fn sign_and_separator_handling() {
    let result = convert_numbers(vec![
        "-101".to_string(),
        "+101".to_string(),
        "1_0".to_string(),
        "_10".to_string(),
        "".to_string(),
        "-".to_string(),
    ]);
    assert_eq!(result[0], Ok(BigInt::from(-5)));
    assert_eq!(result[1], Ok(BigInt::from(5)));
    assert_eq!(result[2], Ok(BigInt::from(2)));
    assert!(result[3].is_err());
    assert!(result[4].is_err());
    assert!(result[5].is_err());
}
