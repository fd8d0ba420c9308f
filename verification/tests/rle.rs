use rle::Table;
use std::time::Instant;

#[test]
fn hex_str() {
    let str = "GGGGJJJJEEEEIIIIIIIAAAACCCCCCCCAAABBBBXXXXXRRRRRRRRR";
    println!("STR: {}", str);

    let str: Vec<char> = str.chars().collect();

    let table = Table::from_slice(&str);
    println!("{:?}", table.as_ref());
    let mut sorted: Vec<char> = Vec::new();
    let mut it = table.iter_sorted();
    while let Some(chr) = it.next(&table) {
        sorted.push(chr);
    }
    println!("{:?}", sorted);

    let str = table.encode_hex_str(&str).unwrap();

    println!("HEX: {}", str);
}

#[test]
fn sorting() {
    let str: Vec<char> = "EEEEAAACCCCCCCBBBBBBDD".chars().collect();
    let mut table = Table::default();
    table.extend(str);

    let mut line = String::new();
    let mut it = table.iter();
    while let Some(chr) = it.next(&table) {
        line.push(chr);
    }
    println!("{}", line);

    let mut line = String::new();
    let mut it = table.iter_sorted();
    while let Some(chr) = it.next(&table) {
        line.push(chr);
    }
    println!("{}", line);
}

#[test]
fn large_string() {
    let input = "................................................................\
        ..........................XXXXXXXXXXXX..........................\
        ......................XXXXXXXXXXXXXXXXXXXX......................\
        ....................XXXXXXXXXXXXXXXXXXXXXXXX....................\
        .................XXXXXXXXXXXXXXXXXXXXXXXXXXXXXX.................\
        ................XXXXXXXXXXX..........XXXXXXXXXXX................\
        ..............XXXXXXXXX..................XXXXXXXXX..............\
        .............XXXXXXX........................XXXXXXX.............\
        ...........XXXXXXX............................XXXXXXX...........\
        ..........XXXXXXX..............................XXXXXXX..........\
        .........XXXXXX..................................XXXXXX.........\
        ........XXXXXX....................................XXXXXX........\
        .......XXXXXX......................................XXXXXX.......\
        .......XXXXX........................................XXXXX.......\
        ......XXXXX..........................................XXXXX......\
        .....XXXXX............................................XXXXX.....\
        .....XXXX..............................................XXXX.....\
        ....XXXXX...........XXXX................XXXX...........XXXXX....\
        ...XXXXX..........XXXXXXXX............XXXXXXXX..........XXXXX...\
        ...XXXX..........XXXXXXXXXX..........XXXXXXXXXX..........XXXX...\
        ...XXXX..........XXXXXXXXXX..........XXXXXXXXXX..........XXXX...\
        ..XXXX..........XXXXXXXXXXXX........XXXXXXXXXXXX..........XXXX..\
        ..XXXX..........XXXXXXXXXXXX........XXXXXXXXXXXX..........XXXX..\
        .XXXXX..........XXXXXXXXXXXX........XXXXXXXXXXXX..........XXXXX.\
        .XXXX...........XXXXXXXXXXXX........XXXXXXXXXXXX...........XXXX.\
        .XXXX............XXXXXXXXXX..........XXXXXXXXXX............XXXX.\
        .XXXX............XXXXXXXXXX..........XXXXXXXXXX............XXXX.\
        XXXXX.............XXXXXXXX............XXXXXXXX.............XXXXX\
        XXXX................XXXX................XXXX................XXXX\
        XXXX........................................................XXXX\
        XXXX........................................................XXXX\
        XXXX........................................................XXXX\
        XXXX........................................................XXXX\
        XXXX........................................................XXXX\
        XXXX........................................................XXXX\
        XXXX........................................................XXXX\
        XXXX........................................................XXXX\
        XXXX........................................................XXXX\
        XXXXX......................................................XXXXX\
        .XXXX......................................................XXXX.\
        .XXXX........XX..................................XX........XXXX.\
        .XXXX........XXX................................XXX........XXXX.\
        .XXXXX.......XXXX..............................XXXX.......XXXXX.\
        ..XXXX........XXXX............................XXXX........XXXX..\
        ..XXXX........XXXXXX........................XXXXXX........XXXX..\
        ...XXXX........XXXXXXXX..................XXXXXXXX........XXXX...\
        ...XXXX.........XXXXXXXXXXX..........XXXXXXXXXXX.........XXXX...\
        ...XXXXX.........XXXXXXXXXXXXXXXXXXXXXXXXXXXXXX.........XXXXX...\
        ....XXXXX...........XXXXXXXXXXXXXXXXXXXXXXXX...........XXXXX....\
        .....XXXX.............XXXXXXXXXXXXXXXXXXXX.............XXXX.....\
        .....XXXXX................XXXXXXXXXXXX................XXXXX.....\
        ......XXXXX..........................................XXXXX......\
        .......XXXXX........................................XXXXX.......\
        .......XXXXXX......................................XXXXXX.......\
        ........XXXXXX....................................XXXXXX........\
        .........XXXXXX..................................XXXXXX.........\
        ..........XXXXXXX..............................XXXXXXX..........\
        ...........XXXXXXX............................XXXXXXX...........\
        .............XXXXXXX........................XXXXXXX.............\
        ..............XXXXXXXXX..................XXXXXXXXX..............\
        ................XXXXXXXXXXX..........XXXXXXXXXXX................\
        .................XXXXXXXXXXXXXXXXXXXXXXXXXXXXXX.................\
        ....................XXXXXXXXXXXXXXXXXXXXXXXX....................\
        ......................XXXXXXXXXXXXXXXXXXXX......................\
        ..........................XXXXXXXXXXXX..........................";

    let chars: Vec<char> = input.chars().collect();

    // Create an RLE table with an entry for each unique character
    let mut table = Table::default();

    // Encode the ASCII image into a sequence of RLE bytes
    let start = Instant::now();
    let mut enc = table.encode_bytes_mut(&chars).unwrap();
    let mut encoded: Vec<u8> = Vec::new();
    while let Some(res) = enc.next(&mut table, &chars) {
        encoded.push(res.unwrap());
    }
    let encode_time = (Instant::now() - start).as_micros();

    // Decode the bytes back into a string
    let start = Instant::now();
    let mut dec = table.decode_bytes(&encoded);
    let mut decoded = String::new();
    while let Some(chr) = dec.next(&table, &encoded) {
        decoded.push(chr);
    }
    let decode_time = (Instant::now() - start).as_micros();

    assert_eq!(input, decoded);

    println!("Number of chars in input string ...... {}", chars.len());
    println!("Number of unique symbols ............. {}", table.len());
    println!("Number of bytes, encoded ............. {}", encoded.len());
    println!("Number of chars in decoded string .... {}", decoded.len());
    println!("Time to encode ....................... {} μs", encode_time);
    println!("Time to decode ....................... {} μs", decode_time);
}
